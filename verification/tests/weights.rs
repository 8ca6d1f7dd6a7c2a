use accept_language::language::Language;
use accept_language::natural::Natural;
use accept_language::number::parse_number;
use accept_language::text::{chars_of, split, string_of, strip_spaces};

fn read(text: &str) -> Option<u64> {
    parse_number(&text.chars().collect())
}

fn expected(text: &str) -> Option<u64> {
    match text.parse::<f64>() {
        Ok(number) if !number.is_nan() => Some(number.to_bits()),
        _ => None,
    }
}

fn check(text: &str) {
    assert_eq!(read(text), expected(text), "{}", text);
    let parameter = format!("q={}", text);
    assert_eq!(
        Language::quality_with_default(&parameter),
        expected(text).unwrap_or(0),
        "{}",
        parameter
    );
}

#[test]
fn plain_weights() {
    assert_eq!(read("0"), Some(0));
    assert_eq!(read("1"), Some(0x3FF0_0000_0000_0000));
    assert_eq!(read("0.5"), Some(0x3FE0_0000_0000_0000));
    assert_eq!(read("0.7"), Some(0x3FE6_6666_6666_6666));
    assert_eq!(read("0.1"), Some(0x3FB9_9999_9999_999A));
    assert_eq!(read("2"), Some(0x4000_0000_0000_0000));
    assert_eq!(read("-2"), Some(0xC000_0000_0000_0000));
    assert_eq!(read("-0"), Some(0x8000_0000_0000_0000));
    assert_eq!(read("inf"), Some(0x7FF0_0000_0000_0000));
    assert_eq!(read("-inf"), Some(0xFFF0_0000_0000_0000));
    for text in ["0", "1", "0.0", "1.0", "1.000", "0.001", "0.999", "0.25", "0.8", "0.3", "0.9"] {
        check(text);
    }
}

#[test]
fn the_forms_of_a_numeral() {
    for text in [
        "", "+", "-", ".", "+.", "-.", "e", "e5", ".e5", "1e", "1e+", "1e-", "1e5", "1E5", "1e+5",
        "1e-5", "1.e5", ".5", "5.", "+.5", "-.5", "+5.", "0.5.", "0..5", "1e5.0", "1e5e5", "1 ",
        " 1", "1,5", "0x10", "1_0", "1f", "++1", "+-1", "--1", "1-", "1+1", "١", "1é", "é", "½",
        "00", "007", "000.000", "0e0", "0e99999999999999999999", "-0e-99999999999999999999",
        "1e0", "1e00000000000000000001", "1e-00000000000000000001",
    ] {
        check(text);
    }
}

#[test]
fn infinity_and_what_is_no_number() {
    for text in [
        "inf", "Inf", "INF", "iNf", "+inf", "-inf", "infinity", "Infinity", "INFINITY", "+Infinity",
        "-iNfInItY", "infinit", "infinityy", "in", "i", "inf ", "infi", "infin", "infini",
        "infinite", "1inf", "inf1", "inff", "nan", "NaN", "NAN", "+nan", "-nan", "nan1", "na",
        "ınf", "İNF", "ｉｎｆ",
    ] {
        check(text);
    }
    assert_eq!(read("nan"), None);
    assert_eq!(read("-NaN"), None);
    assert_eq!(Language::quality_with_default("q=nan"), 0);
}

#[test]
fn halfway_cases_go_to_the_even_pattern() {
    assert_eq!(read("9007199254740992"), Some(9007199254740992f64.to_bits()));
    assert_eq!(read("9007199254740993"), Some(0x4340_0000_0000_0000));
    assert_eq!(read("9007199254740995"), Some(0x4340_0000_0000_0002));
    assert_eq!(
        read("1.00000000000000011102230246251565404236316680908203125"),
        Some(0x3FF0_0000_0000_0000)
    );
    assert_eq!(
        read("1.00000000000000011102230246251565404236316680908203126"),
        Some(0x3FF0_0000_0000_0001)
    );
    assert_eq!(
        read("1.00000000000000033306690738754696212708950042724609375"),
        Some(0x3FF0_0000_0000_0002)
    );
    for text in [
        "9007199254740992",
        "9007199254740993",
        "9007199254740994",
        "9007199254740995",
        "9007199254740996",
        "9007199254740993.0000000000000000000000000000000000000000000001",
        "9007199254740992.9999999999999999999999999999999999999999999999",
        "1.00000000000000011102230246251565404236316680908203125",
        "1.00000000000000011102230246251565404236316680908203124",
        "1.00000000000000011102230246251565404236316680908203126",
        "1.00000000000000033306690738754696212708950042724609375",
        "0.500000000000000166533453693773481063544750213623046875",
        "0.9999999999999999444888487687421729788184165954589843750",
        "0.99999999999999994448884876874217297881841659545898437500000001",
        "0.99999999999999994448884876874217297881841659545898437499999999",
        "0.30000000000000004",
        "0.1000000000000000055511151231257827021181583404541015625",
        "4503599627370496.5",
        "4503599627370497.5",
        "4503599627370497.50000000000000000000001",
    ] {
        check(text);
    }
}

#[test]
fn the_largest_numbers() {
    assert_eq!(read("1.7976931348623157e308"), Some(f64::MAX.to_bits()));
    assert_eq!(read("1e309"), Some(0x7FF0_0000_0000_0000));
    for text in [
        "1.7976931348623157e308",
        "1.7976931348623158e308",
        "1.797693134862315807e308",
        "1.797693134862315808e308",
        "1.7976931348623159e308",
        "179769313486231570814527423731704356798070567525844996598917476803157260780028538760589558632766878171540458953514382464234321326889464182768467546703537516986049910576551282076245490090389328944075868508455133942304583236903222948165808559332123348274797826204144723168738177180919299881250404026184124858368",
        "179769313486231580793728971405303415079934132710037826936173778980444968292764750946649017977587207096330286416692887910946555547851940402630657488671505820681908902000708383676273854845817711531764475730270069855571366959622842914819860834936475292719074168444365510704342711559699508093042880177904174497791",
        "179769313486231580793728971405303415079934132710037826936173778980444968292764750946649017977587207096330286416692887910946555547851940402630657488671505820681908902000708383676273854845817711531764475730270069855571366959622842914819860834936475292719074168444365510704342711559699508093042880177904174497792",
        "1e308",
        "1e309",
        "-1e309",
        "1e342",
        "1e343",
        "1e400",
        "1e1000",
        "1e18446744073709551616",
        "1e99999999999999999999999999999999999999",
        "-1e99999999999999999999999999999999999999",
        "0.0000000000000000000000000000000000001e350",
        "10000000000000000000000000000000000000000000000000000000000000000000000000e300",
        "0.1e309",
        "17976931348623157e292",
    ] {
        check(text);
    }
}

#[test]
fn the_smallest_numbers() {
    assert_eq!(read("5e-324"), Some(1));
    assert_eq!(read("2e-324"), Some(0));
    assert_eq!(read("2.2250738585072014e-308"), Some(0x0010_0000_0000_0000));
    for text in [
        "5e-324",
        "4.9e-324",
        "4e-324",
        "3e-324",
        "2.5e-324",
        "2.4703282292062328e-324",
        "2.4703282292062327e-324",
        "2.47032822920623272088284396434110686182529901307162382212792841250337753635104375932649918180817996189898282347722858865463328355177969898199387398005390939063150356595155702263922908583924491051844359318028499365361525003193704576782492193656236698636584807570015857692699037063119282795585513329278343384093519780155312465972635795746227664652728272200563740064854999770965994704540208281662262378573934507363390079677619305775067401763246736009689513405355374585166611342237666786041621596804619144672918403005300575308490487653917113865916462395249126236538818796362393732804238910186723484976682350898633885879256283027559956575244555072551893136908362547791869486679949683240497058210285131854513962138377228261454376934125320985913276672363281251",
        "2.470328229206232720882843964341106861825299013071623822127928412503377536351043759326499181808179961898982823477228588654633283551779698981993873980053909390631503565951557022639229085839244910518443593180284993653615250031937045767824921936562366986365848075700158576926990370631192827955855133292783433840935197801553124659726357957462276646527282722005637400648549997709659947045402082816622623785739345073633900796776193057750674017632467360096895134053553745851666113422376667860416215968046191446729184030053005753084904876539171138659164623952491262365388187963623937328042389101867234849766823508986338858792562830275599565752445550725518931369083625477918694866799496832404970582102851318545139621383772282614543769341253209859132766723632812499",
        "2.4703282292062327208828439643411068618252990130716238221279284125033775363510437593264991818081799618989828234772285886546332835517796989819938739800539093906315035659515570226392290858392449105184435931802849936536152500319370457678249219365623669863658480757001585769269903706311928279558551332927834338409351978015531246597263579574622766465272827220056374006485499977096599470454020828166226237857393450736339007967761930577506740176324673600968951340535537458516661134223766678604162159680461914467291840300530057530849048765391711386591646239524912623653881879636239373280423891018672348497668235089863388587925628302755995657524455507255189313690836254779186948667994968324049705821028513185451396213837722826145437693412532098591327667236328125",
        "2.2250738585072014e-308",
        "2.2250738585072011e-308",
        "2.2250738585072012e-308",
        "2.225073858507201e-308",
        "1e-323",
        "1e-324",
        "1e-325",
        "1e-358",
        "1e-359",
        "1e-360",
        "1e-400",
        "1e-1000",
        "1e-18446744073709551616",
        "1e-99999999999999999999999999999999999999",
        "-1e-99999999999999999999999999999999999999",
        "100000000000000000000000000000000000000000000000000e-374",
        "0.00000000000000000000000000000000000000000000000001e-274",
        "49e-325",
        "0.0000000000000000000000000000000000000000000000000000000000000000000000000000000000000000000000000000001",
    ] {
        check(text);
    }
    let mut zeros = String::from("0.");
    for _ in 0..400 {
        zeros.push('0');
    }
    zeros.push('1');
    check(&zeros);
    check(&format!("{}e100", zeros));
    check(&format!("{}e500", zeros));
    let mut long = String::from("1");
    for _ in 0..400 {
        long.push('0');
    }
    check(&long);
    check(&format!("{}e-100", long));
    check(&format!("{}e-500", long));
    check(&format!("{}.{}e-400", long, long));
}

fn next(state: &mut u64) -> u64 {
    *state ^= *state << 13;
    *state ^= *state >> 7;
    *state ^= *state << 17;
    *state
}

#[test]
fn patterns_written_out_are_read_back() {
    let mut state: u64 = 0x2545_F491_4F6C_DD1D;
    for _ in 0..1500 {
        let bits = next(&mut state);
        let number = f64::from_bits(bits);
        if number.is_nan() {
            continue;
        }
        let plain = format!("{}", number);
        let scientific = format!("{:e}", number);
        let capital = format!("{:E}", number);
        assert_eq!(read(&plain), Some(bits), "{}", plain);
        assert_eq!(read(&scientific), Some(bits), "{}", scientific);
        assert_eq!(read(&capital), Some(bits), "{}", capital);
    }
    for exponent in 0..2047u64 {
        for fraction in [0u64, 1, 0x8_0000_0000_0000, 0xF_FFFF_FFFF_FFFF] {
            let bits = (exponent << 52) | fraction;
            let text = format!("{:e}", f64::from_bits(bits));
            assert_eq!(read(&text), Some(bits), "{}", text);
        }
    }
}

#[test]
fn digits_taken_at_random() {
    let mut state: u64 = 0x9E37_79B9_7F4A_7C15;
    for _ in 0..1500 {
        let mut text = String::new();
        let whole = next(&mut state) % 25;
        let fraction = next(&mut state) % 25;
        for _ in 0..whole {
            text.push((b'0' + (next(&mut state) % 10) as u8) as char);
        }
        if next(&mut state) % 4 != 0 {
            text.push('.');
            for _ in 0..fraction {
                text.push((b'0' + (next(&mut state) % 10) as u8) as char);
            }
        }
        if next(&mut state) % 3 != 0 {
            let exponent = (next(&mut state) % 700) as i64 - 350;
            text.push_str(&format!("e{}", exponent));
        }
        check(&text);
    }
}

#[test]
fn between_two_patterns() {
    let mut state: u64 = 0xD1B5_4A32_D192_ED03;
    for _ in 0..300 {
        let bits = next(&mut state) >> 1;
        let number = f64::from_bits(bits);
        if !number.is_finite() {
            continue;
        }
        let text = format!("{:e}", number);
        let (digits, exponent) = text.split_once('e').unwrap();
        for tail in ["0000000000000000000001", "4999999999999999999999", "5", "9999999999999999"] {
            let longer = if digits.contains('.') {
                format!("{}{}e{}", digits, tail, exponent)
            } else {
                format!("{}.{}e{}", digits, tail, exponent)
            };
            check(&longer);
        }
    }
}

#[test]
fn text_helpers() {
    let chars = chars_of("a b,c ,, d");
    assert_eq!(chars, "a b,c ,, d".chars().collect::<Vec<char>>());
    assert_eq!(string_of(&chars), "a b,c ,, d");
    let stripped = strip_spaces(&chars);
    assert_eq!(string_of(&stripped), "ab,c,,d");
    let pieces: Vec<String> = split(&stripped, ',').iter().map(string_of).collect();
    assert_eq!(pieces, vec!["ab", "c", "", "d"]);
    let pieces: Vec<String> = split(&Vec::new(), ',').iter().map(string_of).collect();
    assert_eq!(pieces, vec![""]);
    assert_eq!(string_of(&chars_of("héllo, wörld")), "héllo, wörld");
}

#[test]
fn natural_numbers() {
    let mut n = Natural::from_u32(0);
    assert_eq!(n.limbs, Vec::<u32>::new());
    n.scale_add(10, 7);
    assert_eq!(n.limbs, vec![7]);
    for _ in 0..3 {
        n.scale_add(0xFFFF_FFFF, 0xFFFF_FFFF);
    }
    // 8 * (2^32 - 1)^3 + (2^32 - 1)^2 + (2^32 - 1) + ... computed with 128 bits
    let m: u128 = 0xFFFF_FFFF;
    let value = ((7 * m + m) * m + m) * m + m;
    assert_eq!(
        n.limbs,
        vec![value as u32, (value >> 32) as u32, (value >> 64) as u32, (value >> 96) as u32]
    );
    let mut small = Natural::from_u32(5);
    assert!(n.at_least(&small));
    assert!(!small.at_least(&n));
    assert!(small.at_least(&Natural::from_u32(5)));
    assert!(!small.at_least(&Natural::from_u32(6)));
    let before = n.limbs.clone();
    n.subtract(&small);
    let less = value - 5;
    assert_eq!(
        n.limbs,
        vec![less as u32, (less >> 32) as u32, (less >> 64) as u32, (less >> 96) as u32]
    );
    n.subtract(&Natural { limbs: less_limbs(less) });
    assert_eq!(n.limbs, Vec::<u32>::new());
    small.subtract(&Natural::from_u32(5));
    assert_eq!(small.limbs, Vec::<u32>::new());
    let mut borrow = Natural { limbs: vec![0, 0, 1] };
    borrow.subtract(&Natural::from_u32(1));
    assert_eq!(borrow.limbs, vec![0xFFFF_FFFF, 0xFFFF_FFFF]);
    assert_eq!(before.len(), 4);
}

fn less_limbs(value: u128) -> Vec<u32> {
    vec![value as u32, (value >> 32) as u32, (value >> 64) as u32, (value >> 96) as u32]
}

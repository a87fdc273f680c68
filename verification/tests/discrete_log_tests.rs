//! Tests of wide modular exponentiation against recorded values.

use mcseedcracker::discrete_log::{mod_mul, mod_pow, DiscreteLog};
use mcseedcracker::lcg::LinearCongruentialGenerator;

#[test]
fn test_mod_pow() {
    let tests: [(u128, u128, u128, u128); 20] = [
            (
                165901036277234507883803949598723014657,
                839856,
                84714637990324311239584324008783380482,
                28565057155865465865325385094599740015,
            ),
            (
                87886712903272012994197748584504360961,
                901700,
                149205894144872995746606492115085033474,
                68298695081012632103732778843268685325,
            ),
            (
                100041162209004928505409123661144653825,
                293328,
                96006539786823475686400183817117630466,
                24746178642967975785104601844273591251,
            ),
            (
                160378442919460637682056485419016519681,
                745491,
                96780350137964893288577776335940747266,
                33647226158460572194934911863061929367,
            ),
            (
                60814582591068442851010838248273477633,
                379501,
                61360125242566938007832289475072884738,
                36797522857361384956585337620898588647,
            ),
            (
                97043680458164713107730827399336558593,
                456889,
                167312303264793208273468830507767693314,
                15858590908459539291158288052007581611,
            ),
            (
                47508501118771197051050135510851780609,
                720086,
                67849656588038549253731160201680125954,
                3965632746346342840055279633217258355,
            ),
            (
                43608418292014528263807273462757588993,
                11035,
                123645571286044240847767765703202963458,
                50433329884177162551873043444880222945,
            ),
            (
                65485208563642029450249962507724652545,
                830647,
                83227198192127862152728525704171356162,
                6256176664351637709721819367316243765,
            ),
            (
                117156863183202315232173114355154419713,
                882311,
                108762628909595653060621371893532852226,
                10662572010280841412959783948251427921,
            ),
            (
                137728705425089472359047018868501381121,
                554635,
                49186693239407282738872212910694727682,
                5782938860535838264295675796032270653,
            ),
            (
                47818186359689976728967314789541871617,
                332764,
                155830759154505390343139956644649107458,
                114402014342101094533487769406697348853,
            ),
            (
                97615005575875422215304558423603937281,
                304784,
                28144099856524671718245511574665035778,
                13840465343134200813033609475856931587,
            ),
            (
                140401242781959607003260765545370222593,
                919828,
                140288498730847402569052104084844183554,
                13175087269450243927605410623341849973,
            ),
            (
                156089071937764612220410685496739495937,
                270273,
                154064477582033463820510537315371712514,
                137438963428818964808810464885737878541,
            ),
            (
                98811121880097419873054696928391987201,
                10226,
                168034188852238089860045688232027881474,
                12817029300397618827859698970565367685,
            ),
            (
                153669966664827260104814567475149537281,
                76793,
                168396850594237373621132343630668759042,
                88104015315115900223855960173183879095,
            ),
            (
                152212336853005156041349437806281228289,
                155314,
                151887920970129009865909762933523480578,
                148746048982411000464606429216700904009,
            ),
            (
                14471204582693333849614733798621052929,
                882101,
                52389074571706246242319390191476801538,
                29316917271392158288217025876445230821,
            ),
            (
                163713446989522742756452099348641087489,
                917943,
                141024069328288316691678419095826464770,
                9982222399982488090891157953631698869,
            ),
        ];

    for (base, exponent, modulus, result) in tests {
        assert_eq!(
            mod_pow(base, exponent, modulus),
            result,
            "mod_pow({}, {}, {}) != {}",
            base,
            exponent,
            modulus,
            result
        );
    }
}

#[test]
fn test_mod_mul() {
    assert_eq!(mod_mul(7, 9, 5), 3);
    assert_eq!(mod_mul(0, 12345, 7), 0);
    assert_eq!(
        mod_mul(
            165901036277234507883803949598723014657,
            84714637990324311239584324008783380482,
            87886712903272012994197748584504360961,
        ),
        38587204849024097232375558026751939586
    );
}

#[test]
fn test_supports() {
    let java = LinearCongruentialGenerator::java_random();
    assert!(DiscreteLog::supports(&java));
    let even = LinearCongruentialGenerator::new(6, 11, 1 << 48);
    assert!(!DiscreteLog::supports(&even));
}

#[test]
fn test_theta_and_distance() {
    // Reference values computed independently with exact integer arithmetic
    // following the same bit-for-bit algorithm.
    let java = LinearCongruentialGenerator::java_random();
    assert_eq!(DiscreteLog::theta(java.get_multiplier(), 48), 1);
    assert_eq!(DiscreteLog::theta(5, 3), 1);

    let mut state: i64 = 0;
    let mut seen: Vec<i64> = Vec::new();
    for _ in 0..4 {
        seen.push(DiscreteLog::distance_from_zero(&java, state));
        state = java.next_seed(state);
    }
    assert_eq!(seen, vec![0, 1, 2, 1]);
    assert_eq!(DiscreteLog::distance_from_zero(&java, 12345), 1);
}

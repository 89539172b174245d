//! Best-effort operator of a flight, from its callsign alone.
//!
//! A flight ID carries a telephony prefix: three letters and a flight number for airlines
//! ("UAL1381"), a tactical word for military traffic ("RCH285"). The tables hold the busiest
//! carriers and the military prefixes that are beyond doubt; a callsign that matches neither
//! gets no operator rather than a guess.
use vstd::prelude::*;

use crate::text::{
    ascii_upper, chars_of, is_ascii_alpha, is_ascii_digit, same_text, string_between, text_of,
    to_ascii_upper, trim, trimmed,
};

verus! {

/// Airline designators and their operators.
pub open spec fn airlines() -> Seq<(Seq<char>, Seq<char>)> {
    seq![
        ("UAL"@, "United Airlines"@),
        ("AAL"@, "American Airlines"@),
        ("DAL"@, "Delta Air Lines"@),
        ("SWA"@, "Southwest Airlines"@),
        ("JBU"@, "JetBlue"@),
        ("ASA"@, "Alaska Airlines"@),
        ("NKS"@, "Spirit Airlines"@),
        ("FFT"@, "Frontier Airlines"@),
        ("HAL"@, "Hawaiian Airlines"@),
        ("SCX"@, "Sun Country Airlines"@),
        ("AAY"@, "Allegiant Air"@),
        ("SKW"@, "SkyWest Airlines"@),
        ("RPA"@, "Republic Airways"@),
        ("EDV"@, "Endeavor Air"@),
        ("ENY"@, "Envoy Air"@),
        ("JIA"@, "PSA Airlines"@),
        ("AWI"@, "Air Wisconsin"@),
        ("GJS"@, "GoJet Airlines"@),
        ("QXE"@, "Horizon Air"@),
        ("ASH"@, "Mesa Airlines"@),
        ("UCA"@, "CommutAir"@),
        ("FDX"@, "FedEx Express"@),
        ("UPS"@, "UPS Airlines"@),
        ("ABX"@, "ABX Air"@),
        ("GTI"@, "Atlas Air"@),
        ("CKS"@, "Kalitta Air"@),
        ("ATN"@, "Air Transport Intl"@),
        ("GEC"@, "Lufthansa Cargo"@),
        ("CLX"@, "Cargolux"@),
        ("NCA"@, "Nippon Cargo"@),
        ("ACA"@, "Air Canada"@),
        ("ROU"@, "Air Canada Rouge"@),
        ("WJA"@, "WestJet"@),
        ("JZA"@, "Jazz Aviation"@),
        ("TSC"@, "Air Transat"@),
        ("AMX"@, "Aeroméxico"@),
        ("VOI"@, "Volaris"@),
        ("AVA"@, "Avianca"@),
        ("CMP"@, "Copa Airlines"@),
        ("LAN"@, "LATAM Airlines"@),
        ("AZU"@, "Azul"@),
        ("GLO"@, "Gol"@),
        ("BAW"@, "British Airways"@),
        ("VIR"@, "Virgin Atlantic"@),
        ("DLH"@, "Lufthansa"@),
        ("AFR"@, "Air France"@),
        ("KLM"@, "KLM"@),
        ("EZY"@, "easyJet"@),
        ("RYR"@, "Ryanair"@),
        ("IBE"@, "Iberia"@),
        ("SWR"@, "Swiss"@),
        ("AUA"@, "Austrian Airlines"@),
        ("SAS"@, "Scandinavian Airlines"@),
        ("TAP"@, "TAP Air Portugal"@),
        ("EIN"@, "Aer Lingus"@),
        ("FIN"@, "Finnair"@),
        ("NAX"@, "Norwegian"@),
        ("THY"@, "Turkish Airlines"@),
        ("AEE"@, "Aegean Airlines"@),
        ("UAE"@, "Emirates"@),
        ("QTR"@, "Qatar Airways"@),
        ("ETD"@, "Etihad Airways"@),
        ("ELY"@, "El Al"@),
        ("SVA"@, "Saudia"@),
        ("ANA"@, "All Nippon Airways"@),
        ("JAL"@, "Japan Airlines"@),
        ("KAL"@, "Korean Air"@),
        ("AAR"@, "Asiana Airlines"@),
        ("CPA"@, "Cathay Pacific"@),
        ("SIA"@, "Singapore Airlines"@),
        ("CCA"@, "Air China"@),
        ("CES"@, "China Eastern"@),
        ("CSN"@, "China Southern"@),
        ("QFA"@, "Qantas"@),
        ("ANZ"@, "Air New Zealand"@),
        ("EJA"@, "NetJets"@),
        ("LXJ"@, "Flexjet"@),
        ("XOJ"@, "XOJET"@),
    ]
}

/// Military callsign words and their commands.
pub open spec fn commands() -> Seq<(Seq<char>, Seq<char>)> {
    seq![
        ("RCH"@, "USAF · Air Mobility"@),
        ("SPAR"@, "USAF · Special Air Mission"@),
        ("SAM"@, "USAF · Special Air Mission"@),
        ("PAT"@, "US Army · Priority Air Transport"@),
        ("CNV"@, "US Navy · Convoy"@),
        ("VVBG"@, "US Navy"@),
        ("EVAC"@, "US Military · Aeromedical"@),
        ("GRZLY"@, "US Military"@),
    ]
}

/// The name that the first entry with the given code gives.
pub open spec fn named(table: Seq<(Seq<char>, Seq<char>)>, code: Seq<char>) -> Option<Seq<char>>
    decreases table.len(),
{
    if table.len() == 0 {
        None
    } else if table[0].0 == code {
        Some(table[0].1)
    } else {
        named(table.skip(1), code)
    }
}

/// The longest run of ASCII letters that `s` begins with.
pub open spec fn leading_letters(s: Seq<char>) -> Seq<char>
    decreases s.len(),
{
    if s.len() > 0 && is_ascii_alpha(s[0]) {
        seq![s[0]] + leading_letters(s.skip(1))
    } else {
        Seq::empty()
    }
}

/// The operator that a callsign without surrounding white space names: a command where its
/// leading letters are a military word, an airline where they are exactly a three-letter
/// designator and a digit follows.
pub open spec fn callsign_operator(callsign: Seq<char>) -> Option<Seq<char>> {
    let up = ascii_upper(callsign);
    let word = leading_letters(up);
    if word.len() < 3 {
        None
    } else if named(commands(), word) is Some {
        named(commands(), word)
    } else if word.len() == 3 && up.len() > 3 && is_ascii_digit(up[3]) {
        named(airlines(), word)
    } else {
        None
    }
}

/// The operator of a flight: the one that its callsign names, else "Military" for traffic that
/// is flagged so.
pub open spec fn operator_name(callsign: Option<Seq<char>>, military: bool) -> Option<Seq<char>> {
    let by_callsign = match callsign {
        Some(c) => callsign_operator(trimmed(c)),
        None => None,
    };
    if by_callsign is Some {
        by_callsign
    } else if military {
        Some("Military"@)
    } else {
        None
    }
}

/// The view of a table of codes and names.
pub open spec fn table_view(t: Seq<(&str, &str)>) -> Seq<(Seq<char>, Seq<char>)> {
    t.map_values(|e: (&str, &str)| (e.0@, e.1@))
}

fn airline_table() -> (t: Vec<(&'static str, &'static str)>)
    ensures
        table_view(t@) == airlines(),
{
    let t: Vec<(&'static str, &'static str)> = vec![
        ("UAL", "United Airlines"),
        ("AAL", "American Airlines"),
        ("DAL", "Delta Air Lines"),
        ("SWA", "Southwest Airlines"),
        ("JBU", "JetBlue"),
        ("ASA", "Alaska Airlines"),
        ("NKS", "Spirit Airlines"),
        ("FFT", "Frontier Airlines"),
        ("HAL", "Hawaiian Airlines"),
        ("SCX", "Sun Country Airlines"),
        ("AAY", "Allegiant Air"),
        ("SKW", "SkyWest Airlines"),
        ("RPA", "Republic Airways"),
        ("EDV", "Endeavor Air"),
        ("ENY", "Envoy Air"),
        ("JIA", "PSA Airlines"),
        ("AWI", "Air Wisconsin"),
        ("GJS", "GoJet Airlines"),
        ("QXE", "Horizon Air"),
        ("ASH", "Mesa Airlines"),
        ("UCA", "CommutAir"),
        ("FDX", "FedEx Express"),
        ("UPS", "UPS Airlines"),
        ("ABX", "ABX Air"),
        ("GTI", "Atlas Air"),
        ("CKS", "Kalitta Air"),
        ("ATN", "Air Transport Intl"),
        ("GEC", "Lufthansa Cargo"),
        ("CLX", "Cargolux"),
        ("NCA", "Nippon Cargo"),
        ("ACA", "Air Canada"),
        ("ROU", "Air Canada Rouge"),
        ("WJA", "WestJet"),
        ("JZA", "Jazz Aviation"),
        ("TSC", "Air Transat"),
        ("AMX", "Aeroméxico"),
        ("VOI", "Volaris"),
        ("AVA", "Avianca"),
        ("CMP", "Copa Airlines"),
        ("LAN", "LATAM Airlines"),
        ("AZU", "Azul"),
        ("GLO", "Gol"),
        ("BAW", "British Airways"),
        ("VIR", "Virgin Atlantic"),
        ("DLH", "Lufthansa"),
        ("AFR", "Air France"),
        ("KLM", "KLM"),
        ("EZY", "easyJet"),
        ("RYR", "Ryanair"),
        ("IBE", "Iberia"),
        ("SWR", "Swiss"),
        ("AUA", "Austrian Airlines"),
        ("SAS", "Scandinavian Airlines"),
        ("TAP", "TAP Air Portugal"),
        ("EIN", "Aer Lingus"),
        ("FIN", "Finnair"),
        ("NAX", "Norwegian"),
        ("THY", "Turkish Airlines"),
        ("AEE", "Aegean Airlines"),
        ("UAE", "Emirates"),
        ("QTR", "Qatar Airways"),
        ("ETD", "Etihad Airways"),
        ("ELY", "El Al"),
        ("SVA", "Saudia"),
        ("ANA", "All Nippon Airways"),
        ("JAL", "Japan Airlines"),
        ("KAL", "Korean Air"),
        ("AAR", "Asiana Airlines"),
        ("CPA", "Cathay Pacific"),
        ("SIA", "Singapore Airlines"),
        ("CCA", "Air China"),
        ("CES", "China Eastern"),
        ("CSN", "China Southern"),
        ("QFA", "Qantas"),
        ("ANZ", "Air New Zealand"),
        ("EJA", "NetJets"),
        ("LXJ", "Flexjet"),
        ("XOJ", "XOJET"),
    ];
    assert(table_view(t@) =~= airlines());
    t
}

fn command_table() -> (t: Vec<(&'static str, &'static str)>)
    ensures
        table_view(t@) == commands(),
{
    let t: Vec<(&'static str, &'static str)> = vec![
        ("RCH", "USAF · Air Mobility"),
        ("SPAR", "USAF · Special Air Mission"),
        ("SAM", "USAF · Special Air Mission"),
        ("PAT", "US Army · Priority Air Transport"),
        ("CNV", "US Navy · Convoy"),
        ("VVBG", "US Navy"),
        ("EVAC", "US Military · Aeromedical"),
        ("GRZLY", "US Military"),
    ];
    assert(table_view(t@) =~= commands());
    t
}

fn find_name(t: &Vec<(&'static str, &'static str)>, code: &str) -> (r: Option<String>)
    ensures
        text_of(r) == named(table_view(t@), code@),
{
    let n: usize = t.len();
    let mut i: usize = 0;
    assert(table_view(t@).skip(0) == table_view(t@));
    while i < n
        invariant
            n == t@.len(),
            i <= n,
            named(table_view(t@), code@) == named(table_view(t@).skip(i as int), code@),
        decreases n - i,
    {
        assert(table_view(t@).skip(i as int)[0] == (t@[i as int].0@, t@[i as int].1@));
        if same_text(t[i].0, code) {
            return Some(t[i].1.to_owned());
        }
        assert(table_view(t@).skip(i as int).skip(1) == table_view(t@).skip(i + 1));
        i += 1;
    }
    None
}

/// How many ASCII letters `v` begins with.
fn count_leading_letters(v: &Vec<char>) -> (n: usize)
    ensures
        n <= v@.len(),
        leading_letters(v@) == v@.take(n as int),
        n < v@.len() ==> !is_ascii_alpha(v@[n as int]),
{
    let mut n: usize = 0;
    assert(v@.skip(0) == v@);
    while n < v.len() && (('a' <= v[n] && v[n] <= 'z') || ('A' <= v[n] && v[n] <= 'Z'))
        invariant
            n <= v@.len(),
            leading_letters(v@) == v@.take(n as int) + leading_letters(v@.skip(n as int)),
        decreases v@.len() - n,
    {
        let ghost rest = v@.skip(n as int);
        assert(rest.skip(1) == v@.skip(n + 1));
        assert(v@.take(n as int) + (seq![rest[0]] + leading_letters(rest.skip(1))) == v@.take(n + 1)
            + leading_letters(rest.skip(1)));
        n += 1;
    }
    assert(leading_letters(v@.skip(n as int)) == Seq::<char>::empty());
    n
}

/// Operator for a callsign, or `None`. `military` is the military flag of the airframe, used
/// only where no callsign prefix matches.
pub fn operator_for(callsign: Option<&str>, military: bool) -> (r: Option<String>)
    ensures
        text_of(r) == operator_name(
            match callsign {
                Some(c) => Some(c@),
                None => None,
            },
            military,
        ),
{
    if let Some(c) = callsign {
        let cs: String = trim(c);
        let up: String = to_ascii_upper(cs.as_str());
        let v: Vec<char> = chars_of(up.as_str());
        let n: usize = count_leading_letters(&v);
        if n >= 3 {
            let word: String = string_between(&v, 0, n);
            assert(v@.subrange(0, n as int) == v@.take(n as int));
            let command: Option<String> = find_name(&command_table(), word.as_str());
            if command.is_some() {
                return command;
            }
            if n == 3 && v.len() > 3 && '0' <= v[3] && v[3] <= '9' {
                let airline: Option<String> = find_name(&airline_table(), word.as_str());
                if airline.is_some() {
                    return airline;
                }
            }
        }
    }
    if military {
        Some("Military".to_owned())
    } else {
        None
    }
}

/// A three-letter code as a number.
spec fn code_number(code: Seq<char>) -> int {
    code[0] as int * 65536 + code[1] as int * 256 + code[2] as int
}

/// Where a code stands in the table of airlines.
spec fn code_place(n: int) -> int {
    if n == 5587276 {
        0
    } else if n == 4276556 {
        1
    } else if n == 4473164 {
        2
    } else if n == 5461825 {
        3
    } else if n == 4866645 {
        4
    } else if n == 4281153 {
        5
    } else if n == 5131091 {
        6
    } else if n == 4605524 {
        7
    } else if n == 4735308 {
        8
    } else if n == 5456728 {
        9
    } else if n == 4276569 {
        10
    } else if n == 5458775 {
        11
    } else if n == 5394497 {
        12
    } else if n == 4539478 {
        13
    } else if n == 4542041 {
        14
    } else if n == 4868417 {
        15
    } else if n == 4282185 {
        16
    } else if n == 4672083 {
        17
    } else if n == 5331013 {
        18
    } else if n == 4281160 {
        19
    } else if n == 5587777 {
        20
    } else if n == 4605016 {
        21
    } else if n == 5591123 {
        22
    } else if n == 4276824 {
        23
    } else if n == 4674633 {
        24
    } else if n == 4410195 {
        25
    } else if n == 4281422 {
        26
    } else if n == 4670787 {
        27
    } else if n == 4410456 {
        28
    } else if n == 5129025 {
        29
    } else if n == 4277057 {
        30
    } else if n == 5394261 {
        31
    } else if n == 5720641 {
        32
    } else if n == 4872769 {
        33
    } else if n == 5526339 {
        34
    } else if n == 4279640 {
        35
    } else if n == 5656393 {
        36
    } else if n == 4281921 {
        37
    } else if n == 4410704 {
        38
    } else if n == 4997454 {
        39
    } else if n == 4282965 {
        40
    } else if n == 4672591 {
        41
    } else if n == 4342103 {
        42
    } else if n == 5654866 {
        43
    } else if n == 4475976 {
        44
    } else if n == 4277842 {
        45
    } else if n == 4934733 {
        46
    } else if n == 4545113 {
        47
    } else if n == 5396818 {
        48
    } else if n == 4801093 {
        49
    } else if n == 5461842 {
        50
    } else if n == 4281665 {
        51
    } else if n == 5456211 {
        52
    } else if n == 5521744 {
        53
    } else if n == 4540750 {
        54
    } else if n == 4606286 {
        55
    } else if n == 5128536 {
        56
    } else if n == 5523545 {
        57
    } else if n == 4277573 {
        58
    } else if n == 5587269 {
        59
    } else if n == 5330002 {
        60
    } else if n == 4543556 {
        61
    } else if n == 4541529 {
        62
    } else if n == 5461569 {
        63
    } else if n == 4279873 {
        64
    } else if n == 4866380 {
        65
    } else if n == 4931916 {
        66
    } else if n == 4276562 {
        67
    } else if n == 4411457 {
        68
    } else if n == 5458241 {
        69
    } else if n == 4408129 {
        70
    } else if n == 4408659 {
        71
    } else if n == 4412238 {
        72
    } else if n == 5326401 {
        73
    } else if n == 4279898 {
        74
    } else if n == 4540993 {
        75
    } else if n == 5003338 {
        76
    } else if n == 5787466 {
        77
    } else {
        -1
    }
}

proof fn lemma_airline_codes()
    ensures
        airlines().len() == 78,
        forall|k: int|
            0 <= k < 78 ==> {
                &&& (#[trigger] airlines()[k]).0.len() == 3
                &&& forall|i: int|
                    0 <= i < 3 ==> 'A' <= #[trigger] airlines()[k].0[i] && airlines()[k].0[i]
                        <= 'Z'
                &&& code_place(code_number(airlines()[k].0)) == k
            },
{
    reveal_strlit("UAL");
    reveal_strlit("AAL");
    reveal_strlit("DAL");
    reveal_strlit("SWA");
    reveal_strlit("JBU");
    reveal_strlit("ASA");
    reveal_strlit("NKS");
    reveal_strlit("FFT");
    reveal_strlit("HAL");
    reveal_strlit("SCX");
    reveal_strlit("AAY");
    reveal_strlit("SKW");
    reveal_strlit("RPA");
    reveal_strlit("EDV");
    reveal_strlit("ENY");
    reveal_strlit("JIA");
    reveal_strlit("AWI");
    reveal_strlit("GJS");
    reveal_strlit("QXE");
    reveal_strlit("ASH");
    reveal_strlit("UCA");
    reveal_strlit("FDX");
    reveal_strlit("UPS");
    reveal_strlit("ABX");
    reveal_strlit("GTI");
    reveal_strlit("CKS");
    reveal_strlit("ATN");
    reveal_strlit("GEC");
    reveal_strlit("CLX");
    reveal_strlit("NCA");
    reveal_strlit("ACA");
    reveal_strlit("ROU");
    reveal_strlit("WJA");
    reveal_strlit("JZA");
    reveal_strlit("TSC");
    reveal_strlit("AMX");
    reveal_strlit("VOI");
    reveal_strlit("AVA");
    reveal_strlit("CMP");
    reveal_strlit("LAN");
    reveal_strlit("AZU");
    reveal_strlit("GLO");
    reveal_strlit("BAW");
    reveal_strlit("VIR");
    reveal_strlit("DLH");
    reveal_strlit("AFR");
    reveal_strlit("KLM");
    reveal_strlit("EZY");
    reveal_strlit("RYR");
    reveal_strlit("IBE");
    reveal_strlit("SWR");
    reveal_strlit("AUA");
    reveal_strlit("SAS");
    reveal_strlit("TAP");
    reveal_strlit("EIN");
    reveal_strlit("FIN");
    reveal_strlit("NAX");
    reveal_strlit("THY");
    reveal_strlit("AEE");
    reveal_strlit("UAE");
    reveal_strlit("QTR");
    reveal_strlit("ETD");
    reveal_strlit("ELY");
    reveal_strlit("SVA");
    reveal_strlit("ANA");
    reveal_strlit("JAL");
    reveal_strlit("KAL");
    reveal_strlit("AAR");
    reveal_strlit("CPA");
    reveal_strlit("SIA");
    reveal_strlit("CCA");
    reveal_strlit("CES");
    reveal_strlit("CSN");
    reveal_strlit("QFA");
    reveal_strlit("ANZ");
    reveal_strlit("EJA");
    reveal_strlit("LXJ");
    reveal_strlit("XOJ");
    assert(code_number(airlines()[0].0) == 5587276);
    assert(code_number(airlines()[1].0) == 4276556);
    assert(code_number(airlines()[2].0) == 4473164);
    assert(code_number(airlines()[3].0) == 5461825);
    assert(code_number(airlines()[4].0) == 4866645);
    assert(code_number(airlines()[5].0) == 4281153);
    assert(code_number(airlines()[6].0) == 5131091);
    assert(code_number(airlines()[7].0) == 4605524);
    assert(code_number(airlines()[8].0) == 4735308);
    assert(code_number(airlines()[9].0) == 5456728);
    assert(code_number(airlines()[10].0) == 4276569);
    assert(code_number(airlines()[11].0) == 5458775);
    assert(code_number(airlines()[12].0) == 5394497);
    assert(code_number(airlines()[13].0) == 4539478);
    assert(code_number(airlines()[14].0) == 4542041);
    assert(code_number(airlines()[15].0) == 4868417);
    assert(code_number(airlines()[16].0) == 4282185);
    assert(code_number(airlines()[17].0) == 4672083);
    assert(code_number(airlines()[18].0) == 5331013);
    assert(code_number(airlines()[19].0) == 4281160);
    assert(code_number(airlines()[20].0) == 5587777);
    assert(code_number(airlines()[21].0) == 4605016);
    assert(code_number(airlines()[22].0) == 5591123);
    assert(code_number(airlines()[23].0) == 4276824);
    assert(code_number(airlines()[24].0) == 4674633);
    assert(code_number(airlines()[25].0) == 4410195);
    assert(code_number(airlines()[26].0) == 4281422);
    assert(code_number(airlines()[27].0) == 4670787);
    assert(code_number(airlines()[28].0) == 4410456);
    assert(code_number(airlines()[29].0) == 5129025);
    assert(code_number(airlines()[30].0) == 4277057);
    assert(code_number(airlines()[31].0) == 5394261);
    assert(code_number(airlines()[32].0) == 5720641);
    assert(code_number(airlines()[33].0) == 4872769);
    assert(code_number(airlines()[34].0) == 5526339);
    assert(code_number(airlines()[35].0) == 4279640);
    assert(code_number(airlines()[36].0) == 5656393);
    assert(code_number(airlines()[37].0) == 4281921);
    assert(code_number(airlines()[38].0) == 4410704);
    assert(code_number(airlines()[39].0) == 4997454);
    assert(code_number(airlines()[40].0) == 4282965);
    assert(code_number(airlines()[41].0) == 4672591);
    assert(code_number(airlines()[42].0) == 4342103);
    assert(code_number(airlines()[43].0) == 5654866);
    assert(code_number(airlines()[44].0) == 4475976);
    assert(code_number(airlines()[45].0) == 4277842);
    assert(code_number(airlines()[46].0) == 4934733);
    assert(code_number(airlines()[47].0) == 4545113);
    assert(code_number(airlines()[48].0) == 5396818);
    assert(code_number(airlines()[49].0) == 4801093);
    assert(code_number(airlines()[50].0) == 5461842);
    assert(code_number(airlines()[51].0) == 4281665);
    assert(code_number(airlines()[52].0) == 5456211);
    assert(code_number(airlines()[53].0) == 5521744);
    assert(code_number(airlines()[54].0) == 4540750);
    assert(code_number(airlines()[55].0) == 4606286);
    assert(code_number(airlines()[56].0) == 5128536);
    assert(code_number(airlines()[57].0) == 5523545);
    assert(code_number(airlines()[58].0) == 4277573);
    assert(code_number(airlines()[59].0) == 5587269);
    assert(code_number(airlines()[60].0) == 5330002);
    assert(code_number(airlines()[61].0) == 4543556);
    assert(code_number(airlines()[62].0) == 4541529);
    assert(code_number(airlines()[63].0) == 5461569);
    assert(code_number(airlines()[64].0) == 4279873);
    assert(code_number(airlines()[65].0) == 4866380);
    assert(code_number(airlines()[66].0) == 4931916);
    assert(code_number(airlines()[67].0) == 4276562);
    assert(code_number(airlines()[68].0) == 4411457);
    assert(code_number(airlines()[69].0) == 5458241);
    assert(code_number(airlines()[70].0) == 4408129);
    assert(code_number(airlines()[71].0) == 4408659);
    assert(code_number(airlines()[72].0) == 4412238);
    assert(code_number(airlines()[73].0) == 5326401);
    assert(code_number(airlines()[74].0) == 4279898);
    assert(code_number(airlines()[75].0) == 4540993);
    assert(code_number(airlines()[76].0) == 5003338);
    assert(code_number(airlines()[77].0) == 5787466);
}

proof fn lemma_named(table: Seq<(Seq<char>, Seq<char>)>, k: int)
    requires
        0 <= k < table.len(),
        forall|j: int| 0 <= j < k ==> (#[trigger] table[j]).0 != table[k].0,
    ensures
        named(table, table[k].0) == Some(table[k].1),
    decreases k,
{
    if k > 0 {
        let rest = table.skip(1);
        assert(table[0].0 != table[k].0);
        assert forall|j: int| 0 <= j < k - 1 implies (#[trigger] rest[j]).0 != rest[k - 1].0 by {
            assert(rest[j] == table[j + 1]);
        }
        lemma_named(rest, k - 1);
        assert(rest[k - 1] == table[k]);
    }
}

proof fn lemma_leading_letters(s: Seq<char>, n: int)
    requires
        0 <= n <= s.len(),
        forall|i: int| 0 <= i < n ==> is_ascii_alpha(#[trigger] s[i]),
        n < s.len() ==> !is_ascii_alpha(s[n]),
    ensures
        leading_letters(s) == s.take(n),
    decreases n,
{
    if n > 0 {
        let rest = s.skip(1);
        assert(is_ascii_alpha(s[0]));
        assert forall|i: int| 0 <= i < n - 1 implies is_ascii_alpha(#[trigger] rest[i]) by {
            assert(rest[i] == s[i + 1]);
        }
        lemma_leading_letters(rest, n - 1);
        assert(seq![s[0]] + rest.take(n - 1) =~= s.take(n));
    } else {
        assert(s.take(0) =~= Seq::<char>::empty());
    }
}

proof fn lemma_no_command(code: Seq<char>)
    requires
        code.len() == 3,
        code_number(code) != code_number("RCH"@),
        code_number(code) != code_number("SAM"@),
        code_number(code) != code_number("PAT"@),
        code_number(code) != code_number("CNV"@),
    ensures
        named(commands(), code) is None,
{
    reveal_strlit("RCH");
    reveal_strlit("SPAR");
    reveal_strlit("SAM");
    reveal_strlit("PAT");
    reveal_strlit("CNV");
    reveal_strlit("VVBG");
    reveal_strlit("EVAC");
    reveal_strlit("GRZLY");
    reveal_with_fuel(named, 10);
    let t0 = commands();
    let t1 = t0.skip(1);
    let t2 = t1.skip(1);
    let t3 = t2.skip(1);
    let t4 = t3.skip(1);
    let t5 = t4.skip(1);
    let t6 = t5.skip(1);
    let t7 = t6.skip(1);
    assert(t1[0] == t0[1] && t2[0] == t0[2] && t3[0] == t0[3] && t4[0] == t0[4] && t5[0] == t0[5]
        && t6[0] == t0[6] && t7[0] == t0[7]);
    assert(t7.skip(1).len() == 0);
}

proof fn lemma_airline(callsign: Seq<char>, military: bool, k: int)
    requires
        0 <= k < 78,
        ascii_upper(trimmed(callsign)).len() > 3,
        ascii_upper(trimmed(callsign)).take(3) == airlines()[k].0,
        is_ascii_digit(ascii_upper(trimmed(callsign))[3]),
    ensures
        operator_name(Some(callsign), military) == Some(airlines()[k].1),
{
    let u = ascii_upper(trimmed(callsign));
    let code = airlines()[k].0;
    lemma_airline_codes();
    assert forall|j: int| 0 <= j < k implies (#[trigger] airlines()[j]).0 != code by {
        assert(code_place(code_number(airlines()[j].0)) == j);
    }
    lemma_named(airlines(), k);
    assert forall|i: int| 0 <= i < 3 implies is_ascii_alpha(#[trigger] u[i]) by {
        assert(u.take(3)[i] == u[i]);
        assert('A' <= airlines()[k].0[i]);
    }
    lemma_leading_letters(u, 3);
    reveal_strlit("RCH");
    reveal_strlit("SAM");
    reveal_strlit("PAT");
    reveal_strlit("CNV");
    assert(code_number("RCH"@) == 5391176);
    assert(code_number("SAM"@) == 5456205);
    assert(code_number("PAT"@) == 5259604);
    assert(code_number("CNV"@) == 4410966);
    assert(code_place(code_number(code)) == k);
    lemma_no_command(code);
}

/// A callsign of a carrier's designator and a flight number names the carrier, whatever its case
/// and the white space around it, and whether or not the airframe is military.
pub proof fn designators_name_their_carrier(callsign: Seq<char>, military: bool)
    ensures
        ({
            let u = ascii_upper(trimmed(callsign));
            let flies = |code: Seq<char>|
                u.len() > 3 && u.take(3) == code && '0' <= u[3] && u[3] <= '9';
            let name = operator_name(Some(callsign), military);
            &&& flies("UAL"@) ==> name == Some("United Airlines"@)
            &&& flies("AAL"@) ==> name == Some("American Airlines"@)
            &&& flies("DAL"@) ==> name == Some("Delta Air Lines"@)
            &&& flies("SWA"@) ==> name == Some("Southwest Airlines"@)
            &&& flies("JBU"@) ==> name == Some("JetBlue"@)
            &&& flies("ASA"@) ==> name == Some("Alaska Airlines"@)
            &&& flies("NKS"@) ==> name == Some("Spirit Airlines"@)
            &&& flies("FFT"@) ==> name == Some("Frontier Airlines"@)
            &&& flies("HAL"@) ==> name == Some("Hawaiian Airlines"@)
            &&& flies("SCX"@) ==> name == Some("Sun Country Airlines"@)
            &&& flies("AAY"@) ==> name == Some("Allegiant Air"@)
            &&& flies("SKW"@) ==> name == Some("SkyWest Airlines"@)
            &&& flies("RPA"@) ==> name == Some("Republic Airways"@)
            &&& flies("EDV"@) ==> name == Some("Endeavor Air"@)
            &&& flies("ENY"@) ==> name == Some("Envoy Air"@)
            &&& flies("JIA"@) ==> name == Some("PSA Airlines"@)
            &&& flies("AWI"@) ==> name == Some("Air Wisconsin"@)
            &&& flies("GJS"@) ==> name == Some("GoJet Airlines"@)
            &&& flies("QXE"@) ==> name == Some("Horizon Air"@)
            &&& flies("ASH"@) ==> name == Some("Mesa Airlines"@)
            &&& flies("UCA"@) ==> name == Some("CommutAir"@)
            &&& flies("FDX"@) ==> name == Some("FedEx Express"@)
            &&& flies("UPS"@) ==> name == Some("UPS Airlines"@)
            &&& flies("ABX"@) ==> name == Some("ABX Air"@)
            &&& flies("GTI"@) ==> name == Some("Atlas Air"@)
            &&& flies("CKS"@) ==> name == Some("Kalitta Air"@)
            &&& flies("ATN"@) ==> name == Some("Air Transport Intl"@)
            &&& flies("GEC"@) ==> name == Some("Lufthansa Cargo"@)
            &&& flies("CLX"@) ==> name == Some("Cargolux"@)
            &&& flies("NCA"@) ==> name == Some("Nippon Cargo"@)
            &&& flies("ACA"@) ==> name == Some("Air Canada"@)
            &&& flies("ROU"@) ==> name == Some("Air Canada Rouge"@)
            &&& flies("WJA"@) ==> name == Some("WestJet"@)
            &&& flies("JZA"@) ==> name == Some("Jazz Aviation"@)
            &&& flies("TSC"@) ==> name == Some("Air Transat"@)
            &&& flies("AMX"@) ==> name == Some("Aeroméxico"@)
            &&& flies("VOI"@) ==> name == Some("Volaris"@)
            &&& flies("AVA"@) ==> name == Some("Avianca"@)
            &&& flies("CMP"@) ==> name == Some("Copa Airlines"@)
            &&& flies("LAN"@) ==> name == Some("LATAM Airlines"@)
            &&& flies("AZU"@) ==> name == Some("Azul"@)
            &&& flies("GLO"@) ==> name == Some("Gol"@)
            &&& flies("BAW"@) ==> name == Some("British Airways"@)
            &&& flies("VIR"@) ==> name == Some("Virgin Atlantic"@)
            &&& flies("DLH"@) ==> name == Some("Lufthansa"@)
            &&& flies("AFR"@) ==> name == Some("Air France"@)
            &&& flies("KLM"@) ==> name == Some("KLM"@)
            &&& flies("EZY"@) ==> name == Some("easyJet"@)
            &&& flies("RYR"@) ==> name == Some("Ryanair"@)
            &&& flies("IBE"@) ==> name == Some("Iberia"@)
            &&& flies("SWR"@) ==> name == Some("Swiss"@)
            &&& flies("AUA"@) ==> name == Some("Austrian Airlines"@)
            &&& flies("SAS"@) ==> name == Some("Scandinavian Airlines"@)
            &&& flies("TAP"@) ==> name == Some("TAP Air Portugal"@)
            &&& flies("EIN"@) ==> name == Some("Aer Lingus"@)
            &&& flies("FIN"@) ==> name == Some("Finnair"@)
            &&& flies("NAX"@) ==> name == Some("Norwegian"@)
            &&& flies("THY"@) ==> name == Some("Turkish Airlines"@)
            &&& flies("AEE"@) ==> name == Some("Aegean Airlines"@)
            &&& flies("UAE"@) ==> name == Some("Emirates"@)
            &&& flies("QTR"@) ==> name == Some("Qatar Airways"@)
            &&& flies("ETD"@) ==> name == Some("Etihad Airways"@)
            &&& flies("ELY"@) ==> name == Some("El Al"@)
            &&& flies("SVA"@) ==> name == Some("Saudia"@)
            &&& flies("ANA"@) ==> name == Some("All Nippon Airways"@)
            &&& flies("JAL"@) ==> name == Some("Japan Airlines"@)
            &&& flies("KAL"@) ==> name == Some("Korean Air"@)
            &&& flies("AAR"@) ==> name == Some("Asiana Airlines"@)
            &&& flies("CPA"@) ==> name == Some("Cathay Pacific"@)
            &&& flies("SIA"@) ==> name == Some("Singapore Airlines"@)
            &&& flies("CCA"@) ==> name == Some("Air China"@)
            &&& flies("CES"@) ==> name == Some("China Eastern"@)
            &&& flies("CSN"@) ==> name == Some("China Southern"@)
            &&& flies("QFA"@) ==> name == Some("Qantas"@)
            &&& flies("ANZ"@) ==> name == Some("Air New Zealand"@)
            &&& flies("EJA"@) ==> name == Some("NetJets"@)
            &&& flies("LXJ"@) ==> name == Some("Flexjet"@)
            &&& flies("XOJ"@) ==> name == Some("XOJET"@)
        }),
{
    let u = ascii_upper(trimmed(callsign));
    if u.len() > 3 && '0' <= u[3] && u[3] <= '9' {
        lemma_designators(callsign, military);
    }
}

proof fn lemma_designators(callsign: Seq<char>, military: bool)
    requires
        ascii_upper(trimmed(callsign)).len() > 3,
        is_ascii_digit(ascii_upper(trimmed(callsign))[3]),
    ensures
        ({
            let u = ascii_upper(trimmed(callsign));
            let flies = |code: Seq<char>|
                u.len() > 3 && u.take(3) == code && '0' <= u[3] && u[3] <= '9';
            let name = operator_name(Some(callsign), military);
            &&& flies("UAL"@) ==> name == Some("United Airlines"@)
            &&& flies("AAL"@) ==> name == Some("American Airlines"@)
            &&& flies("DAL"@) ==> name == Some("Delta Air Lines"@)
            &&& flies("SWA"@) ==> name == Some("Southwest Airlines"@)
            &&& flies("JBU"@) ==> name == Some("JetBlue"@)
            &&& flies("ASA"@) ==> name == Some("Alaska Airlines"@)
            &&& flies("NKS"@) ==> name == Some("Spirit Airlines"@)
            &&& flies("FFT"@) ==> name == Some("Frontier Airlines"@)
            &&& flies("HAL"@) ==> name == Some("Hawaiian Airlines"@)
            &&& flies("SCX"@) ==> name == Some("Sun Country Airlines"@)
            &&& flies("AAY"@) ==> name == Some("Allegiant Air"@)
            &&& flies("SKW"@) ==> name == Some("SkyWest Airlines"@)
            &&& flies("RPA"@) ==> name == Some("Republic Airways"@)
            &&& flies("EDV"@) ==> name == Some("Endeavor Air"@)
            &&& flies("ENY"@) ==> name == Some("Envoy Air"@)
            &&& flies("JIA"@) ==> name == Some("PSA Airlines"@)
            &&& flies("AWI"@) ==> name == Some("Air Wisconsin"@)
            &&& flies("GJS"@) ==> name == Some("GoJet Airlines"@)
            &&& flies("QXE"@) ==> name == Some("Horizon Air"@)
            &&& flies("ASH"@) ==> name == Some("Mesa Airlines"@)
            &&& flies("UCA"@) ==> name == Some("CommutAir"@)
            &&& flies("FDX"@) ==> name == Some("FedEx Express"@)
            &&& flies("UPS"@) ==> name == Some("UPS Airlines"@)
            &&& flies("ABX"@) ==> name == Some("ABX Air"@)
            &&& flies("GTI"@) ==> name == Some("Atlas Air"@)
            &&& flies("CKS"@) ==> name == Some("Kalitta Air"@)
            &&& flies("ATN"@) ==> name == Some("Air Transport Intl"@)
            &&& flies("GEC"@) ==> name == Some("Lufthansa Cargo"@)
            &&& flies("CLX"@) ==> name == Some("Cargolux"@)
            &&& flies("NCA"@) ==> name == Some("Nippon Cargo"@)
            &&& flies("ACA"@) ==> name == Some("Air Canada"@)
            &&& flies("ROU"@) ==> name == Some("Air Canada Rouge"@)
            &&& flies("WJA"@) ==> name == Some("WestJet"@)
            &&& flies("JZA"@) ==> name == Some("Jazz Aviation"@)
            &&& flies("TSC"@) ==> name == Some("Air Transat"@)
            &&& flies("AMX"@) ==> name == Some("Aeroméxico"@)
            &&& flies("VOI"@) ==> name == Some("Volaris"@)
            &&& flies("AVA"@) ==> name == Some("Avianca"@)
            &&& flies("CMP"@) ==> name == Some("Copa Airlines"@)
            &&& flies("LAN"@) ==> name == Some("LATAM Airlines"@)
            &&& flies("AZU"@) ==> name == Some("Azul"@)
            &&& flies("GLO"@) ==> name == Some("Gol"@)
            &&& flies("BAW"@) ==> name == Some("British Airways"@)
            &&& flies("VIR"@) ==> name == Some("Virgin Atlantic"@)
            &&& flies("DLH"@) ==> name == Some("Lufthansa"@)
            &&& flies("AFR"@) ==> name == Some("Air France"@)
            &&& flies("KLM"@) ==> name == Some("KLM"@)
            &&& flies("EZY"@) ==> name == Some("easyJet"@)
            &&& flies("RYR"@) ==> name == Some("Ryanair"@)
            &&& flies("IBE"@) ==> name == Some("Iberia"@)
            &&& flies("SWR"@) ==> name == Some("Swiss"@)
            &&& flies("AUA"@) ==> name == Some("Austrian Airlines"@)
            &&& flies("SAS"@) ==> name == Some("Scandinavian Airlines"@)
            &&& flies("TAP"@) ==> name == Some("TAP Air Portugal"@)
            &&& flies("EIN"@) ==> name == Some("Aer Lingus"@)
            &&& flies("FIN"@) ==> name == Some("Finnair"@)
            &&& flies("NAX"@) ==> name == Some("Norwegian"@)
            &&& flies("THY"@) ==> name == Some("Turkish Airlines"@)
            &&& flies("AEE"@) ==> name == Some("Aegean Airlines"@)
            &&& flies("UAE"@) ==> name == Some("Emirates"@)
            &&& flies("QTR"@) ==> name == Some("Qatar Airways"@)
            &&& flies("ETD"@) ==> name == Some("Etihad Airways"@)
            &&& flies("ELY"@) ==> name == Some("El Al"@)
            &&& flies("SVA"@) ==> name == Some("Saudia"@)
            &&& flies("ANA"@) ==> name == Some("All Nippon Airways"@)
            &&& flies("JAL"@) ==> name == Some("Japan Airlines"@)
            &&& flies("KAL"@) ==> name == Some("Korean Air"@)
            &&& flies("AAR"@) ==> name == Some("Asiana Airlines"@)
            &&& flies("CPA"@) ==> name == Some("Cathay Pacific"@)
            &&& flies("SIA"@) ==> name == Some("Singapore Airlines"@)
            &&& flies("CCA"@) ==> name == Some("Air China"@)
            &&& flies("CES"@) ==> name == Some("China Eastern"@)
            &&& flies("CSN"@) ==> name == Some("China Southern"@)
            &&& flies("QFA"@) ==> name == Some("Qantas"@)
            &&& flies("ANZ"@) ==> name == Some("Air New Zealand"@)
            &&& flies("EJA"@) ==> name == Some("NetJets"@)
            &&& flies("LXJ"@) ==> name == Some("Flexjet"@)
            &&& flies("XOJ"@) ==> name == Some("XOJET"@)
        }),
{
    let u = ascii_upper(trimmed(callsign));
    if u.take(3) == "UAL"@ {
        lemma_airline(callsign, military, 0);
    }
    if u.take(3) == "AAL"@ {
        lemma_airline(callsign, military, 1);
    }
    if u.take(3) == "DAL"@ {
        lemma_airline(callsign, military, 2);
    }
    if u.take(3) == "SWA"@ {
        lemma_airline(callsign, military, 3);
    }
    if u.take(3) == "JBU"@ {
        lemma_airline(callsign, military, 4);
    }
    if u.take(3) == "ASA"@ {
        lemma_airline(callsign, military, 5);
    }
    if u.take(3) == "NKS"@ {
        lemma_airline(callsign, military, 6);
    }
    if u.take(3) == "FFT"@ {
        lemma_airline(callsign, military, 7);
    }
    if u.take(3) == "HAL"@ {
        lemma_airline(callsign, military, 8);
    }
    if u.take(3) == "SCX"@ {
        lemma_airline(callsign, military, 9);
    }
    if u.take(3) == "AAY"@ {
        lemma_airline(callsign, military, 10);
    }
    if u.take(3) == "SKW"@ {
        lemma_airline(callsign, military, 11);
    }
    if u.take(3) == "RPA"@ {
        lemma_airline(callsign, military, 12);
    }
    if u.take(3) == "EDV"@ {
        lemma_airline(callsign, military, 13);
    }
    if u.take(3) == "ENY"@ {
        lemma_airline(callsign, military, 14);
    }
    if u.take(3) == "JIA"@ {
        lemma_airline(callsign, military, 15);
    }
    if u.take(3) == "AWI"@ {
        lemma_airline(callsign, military, 16);
    }
    if u.take(3) == "GJS"@ {
        lemma_airline(callsign, military, 17);
    }
    if u.take(3) == "QXE"@ {
        lemma_airline(callsign, military, 18);
    }
    if u.take(3) == "ASH"@ {
        lemma_airline(callsign, military, 19);
    }
    if u.take(3) == "UCA"@ {
        lemma_airline(callsign, military, 20);
    }
    if u.take(3) == "FDX"@ {
        lemma_airline(callsign, military, 21);
    }
    if u.take(3) == "UPS"@ {
        lemma_airline(callsign, military, 22);
    }
    if u.take(3) == "ABX"@ {
        lemma_airline(callsign, military, 23);
    }
    if u.take(3) == "GTI"@ {
        lemma_airline(callsign, military, 24);
    }
    if u.take(3) == "CKS"@ {
        lemma_airline(callsign, military, 25);
    }
    if u.take(3) == "ATN"@ {
        lemma_airline(callsign, military, 26);
    }
    if u.take(3) == "GEC"@ {
        lemma_airline(callsign, military, 27);
    }
    if u.take(3) == "CLX"@ {
        lemma_airline(callsign, military, 28);
    }
    if u.take(3) == "NCA"@ {
        lemma_airline(callsign, military, 29);
    }
    if u.take(3) == "ACA"@ {
        lemma_airline(callsign, military, 30);
    }
    if u.take(3) == "ROU"@ {
        lemma_airline(callsign, military, 31);
    }
    if u.take(3) == "WJA"@ {
        lemma_airline(callsign, military, 32);
    }
    if u.take(3) == "JZA"@ {
        lemma_airline(callsign, military, 33);
    }
    if u.take(3) == "TSC"@ {
        lemma_airline(callsign, military, 34);
    }
    if u.take(3) == "AMX"@ {
        lemma_airline(callsign, military, 35);
    }
    if u.take(3) == "VOI"@ {
        lemma_airline(callsign, military, 36);
    }
    if u.take(3) == "AVA"@ {
        lemma_airline(callsign, military, 37);
    }
    if u.take(3) == "CMP"@ {
        lemma_airline(callsign, military, 38);
    }
    if u.take(3) == "LAN"@ {
        lemma_airline(callsign, military, 39);
    }
    if u.take(3) == "AZU"@ {
        lemma_airline(callsign, military, 40);
    }
    if u.take(3) == "GLO"@ {
        lemma_airline(callsign, military, 41);
    }
    if u.take(3) == "BAW"@ {
        lemma_airline(callsign, military, 42);
    }
    if u.take(3) == "VIR"@ {
        lemma_airline(callsign, military, 43);
    }
    if u.take(3) == "DLH"@ {
        lemma_airline(callsign, military, 44);
    }
    if u.take(3) == "AFR"@ {
        lemma_airline(callsign, military, 45);
    }
    if u.take(3) == "KLM"@ {
        lemma_airline(callsign, military, 46);
    }
    if u.take(3) == "EZY"@ {
        lemma_airline(callsign, military, 47);
    }
    if u.take(3) == "RYR"@ {
        lemma_airline(callsign, military, 48);
    }
    if u.take(3) == "IBE"@ {
        lemma_airline(callsign, military, 49);
    }
    if u.take(3) == "SWR"@ {
        lemma_airline(callsign, military, 50);
    }
    if u.take(3) == "AUA"@ {
        lemma_airline(callsign, military, 51);
    }
    if u.take(3) == "SAS"@ {
        lemma_airline(callsign, military, 52);
    }
    if u.take(3) == "TAP"@ {
        lemma_airline(callsign, military, 53);
    }
    if u.take(3) == "EIN"@ {
        lemma_airline(callsign, military, 54);
    }
    if u.take(3) == "FIN"@ {
        lemma_airline(callsign, military, 55);
    }
    if u.take(3) == "NAX"@ {
        lemma_airline(callsign, military, 56);
    }
    if u.take(3) == "THY"@ {
        lemma_airline(callsign, military, 57);
    }
    if u.take(3) == "AEE"@ {
        lemma_airline(callsign, military, 58);
    }
    if u.take(3) == "UAE"@ {
        lemma_airline(callsign, military, 59);
    }
    if u.take(3) == "QTR"@ {
        lemma_airline(callsign, military, 60);
    }
    if u.take(3) == "ETD"@ {
        lemma_airline(callsign, military, 61);
    }
    if u.take(3) == "ELY"@ {
        lemma_airline(callsign, military, 62);
    }
    if u.take(3) == "SVA"@ {
        lemma_airline(callsign, military, 63);
    }
    if u.take(3) == "ANA"@ {
        lemma_airline(callsign, military, 64);
    }
    if u.take(3) == "JAL"@ {
        lemma_airline(callsign, military, 65);
    }
    if u.take(3) == "KAL"@ {
        lemma_airline(callsign, military, 66);
    }
    if u.take(3) == "AAR"@ {
        lemma_airline(callsign, military, 67);
    }
    if u.take(3) == "CPA"@ {
        lemma_airline(callsign, military, 68);
    }
    if u.take(3) == "SIA"@ {
        lemma_airline(callsign, military, 69);
    }
    if u.take(3) == "CCA"@ {
        lemma_airline(callsign, military, 70);
    }
    if u.take(3) == "CES"@ {
        lemma_airline(callsign, military, 71);
    }
    if u.take(3) == "CSN"@ {
        lemma_airline(callsign, military, 72);
    }
    if u.take(3) == "QFA"@ {
        lemma_airline(callsign, military, 73);
    }
    if u.take(3) == "ANZ"@ {
        lemma_airline(callsign, military, 74);
    }
    if u.take(3) == "EJA"@ {
        lemma_airline(callsign, military, 75);
    }
    if u.take(3) == "LXJ"@ {
        lemma_airline(callsign, military, 76);
    }
    if u.take(3) == "XOJ"@ {
        lemma_airline(callsign, military, 77);
    }
}

/// A callsign whose leading letters are a military word names the command, whatever its case and
/// the white space around it, and whether or not the airframe is flagged.
pub proof fn military_words_name_their_command(callsign: Seq<char>, military: bool, n: int)
    requires
        0 <= n <= trimmed(callsign).len(),
        forall|i: int|
            0 <= i < n ==> is_ascii_alpha(#[trigger] ascii_upper(trimmed(callsign))[i]),
        n < trimmed(callsign).len() ==> !is_ascii_alpha(ascii_upper(trimmed(callsign))[n]),
    ensures
        ({
            let word = ascii_upper(trimmed(callsign)).take(n);
            let name = operator_name(Some(callsign), military);
            &&& word == "RCH"@ ==> name == Some("USAF · Air Mobility"@)
            &&& word == "SPAR"@ ==> name == Some("USAF · Special Air Mission"@)
            &&& word == "SAM"@ ==> name == Some("USAF · Special Air Mission"@)
            &&& word == "PAT"@ ==> name == Some("US Army · Priority Air Transport"@)
            &&& word == "CNV"@ ==> name == Some("US Navy · Convoy"@)
            &&& word == "VVBG"@ ==> name == Some("US Navy"@)
            &&& word == "EVAC"@ ==> name == Some("US Military · Aeromedical"@)
            &&& word == "GRZLY"@ ==> name == Some("US Military"@)
        }),
{
    let u = ascii_upper(trimmed(callsign));
    lemma_leading_letters(u, n);
    reveal_strlit("RCH");
    reveal_strlit("SPAR");
    reveal_strlit("SAM");
    reveal_strlit("PAT");
    reveal_strlit("CNV");
    reveal_strlit("VVBG");
    reveal_strlit("EVAC");
    reveal_strlit("GRZLY");
    reveal_with_fuel(named, 10);
    let t0 = commands();
    let t1 = t0.skip(1);
    let t2 = t1.skip(1);
    let t3 = t2.skip(1);
    let t4 = t3.skip(1);
    let t5 = t4.skip(1);
    let t6 = t5.skip(1);
    let t7 = t6.skip(1);
    assert(t1[0] == t0[1] && t2[0] == t0[2] && t3[0] == t0[3] && t4[0] == t0[4] && t5[0] == t0[5]
        && t6[0] == t0[6] && t7[0] == t0[7]);
    assert("RCH"@[0] == 'R' && "SPAR"@[1] == 'P' && "SAM"@[1] == 'A' && "PAT"@[0] == 'P'
        && "CNV"@[0] == 'C' && "VVBG"@[0] == 'V' && "EVAC"@[0] == 'E' && "GRZLY"@[0] == 'G'
        && "SPAR"@[0] == 'S' && "SAM"@[0] == 'S');
}

/// No operator is guessed: a callsign that does not begin with three letters names none, and
/// neither does one of just three letters without a digit behind them that are no military word.
/// The flag is a fallback only: it gives "Military" exactly where the callsign names no operator.
pub proof fn operators_are_not_guessed(callsign: Seq<char>)
    ensures
        operator_name(None, false) is None,
        operator_name(None, true) == Some("Military"@),
        operator_name(Some(callsign), false) is Some ==> operator_name(Some(callsign), true)
            == operator_name(Some(callsign), false),
        operator_name(Some(callsign), false) is None ==> operator_name(Some(callsign), true)
            == Some("Military"@),
        ({
            let u = ascii_upper(trimmed(callsign));
            u.len() < 3 || !is_ascii_alpha(u[0]) || !is_ascii_alpha(u[1]) || !is_ascii_alpha(u[2])
                ==> operator_name(Some(callsign), false) is None
        }),
        ({
            let u = ascii_upper(trimmed(callsign));
            u.len() >= 3 && u.take(3) != "RCH"@ && u.take(3) != "SAM"@ && u.take(3) != "PAT"@
                && u.take(3) != "CNV"@ && is_ascii_alpha(u[0]) && is_ascii_alpha(u[1])
                && is_ascii_alpha(u[2]) && (u.len() == 3 || (!is_ascii_alpha(u[3])
                && !is_ascii_digit(u[3]))) ==> operator_name(Some(callsign), false) is None
        }),
{
    let u = ascii_upper(trimmed(callsign));
    reveal_with_fuel(leading_letters, 4);
    if u.len() >= 3 && is_ascii_alpha(u[0]) && is_ascii_alpha(u[1]) && is_ascii_alpha(u[2]) && (
    u.len() == 3 || !is_ascii_alpha(u[3])) {
        lemma_leading_letters(u, 3);
        let code = u.take(3);
        reveal_strlit("RCH");
        reveal_strlit("SAM");
        reveal_strlit("PAT");
        reveal_strlit("CNV");
        if code != "RCH"@ && code != "SAM"@ && code != "PAT"@ && code != "CNV"@ {
            lemma_code_number(code, "RCH"@);
            lemma_code_number(code, "SAM"@);
            lemma_code_number(code, "PAT"@);
            lemma_code_number(code, "CNV"@);
            lemma_no_command(code);
        }
    } else if u.len() >= 3 && is_ascii_alpha(u[0]) && is_ascii_alpha(u[1]) && is_ascii_alpha(u[2])
    {
    } else {
        assert(leading_letters(u).len() < 3) by {
            if u.len() > 0 && is_ascii_alpha(u[0]) {
                if u.len() > 1 && is_ascii_alpha(u[1]) {
                    lemma_leading_letters(u, 2);
                } else {
                    lemma_leading_letters(u, 1);
                }
            } else {
                lemma_leading_letters(u, 0);
            }
        }
    }
}

proof fn lemma_code_number(a: Seq<char>, b: Seq<char>)
    requires
        a.len() == 3,
        b.len() == 3,
        a != b,
        forall|i: int| 0 <= i < 3 ==> 0 <= (#[trigger] a[i]) as int <= 255,
        forall|i: int| 0 <= i < 3 ==> 0 <= (#[trigger] b[i]) as int <= 255,
    ensures
        code_number(a) != code_number(b),
{
    if code_number(a) == code_number(b) {
        let (a0, a1, a2) = (a[0] as int, a[1] as int, a[2] as int);
        let (b0, b1, b2) = (b[0] as int, b[1] as int, b[2] as int);
        assert(0 <= a1 <= 255 && 0 <= a2 <= 255 && 0 <= b1 <= 255 && 0 <= b2 <= 255);
        assert(a0 == b0 && a1 == b1 && a2 == b2);
        assert(a[0] == b[0] && a[1] == b[1] && a[2] == b[2]);
        assert(a =~= b);
    }
}

} // verus!

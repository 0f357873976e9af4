//! Request codec: the wire representation of a log-retrieval request.
//!
//! A request travels as a JSON object with a fixed field order and fixed key
//! names. The encoder below produces exactly that text, and the decoder
//! parses it back; both are specified against the same spec-level grammar,
//! so the round trip is proved, not assumed.

use vstd::prelude::*;

verus! {

/// A verbosity level for one protocol layer. The set is exhaustive, so a
/// filter can never hold a level the wire format has no word for.
#[derive(Clone, Copy, PartialEq, Eq, Structural, Debug)]
pub enum Verbosity {
    Dbg,
    Wrn,
}

/// The word that stands for a level on the wire.
pub open spec fn level_chars(v: Verbosity) -> Seq<char> {
    match v {
        Verbosity::Dbg => "debug"@,
        Verbosity::Wrn => "warn"@,
    }
}

/// Per-layer verbosity filter attached to every request: one level for each
/// protocol layer the remote service knows about.
#[derive(Clone, Copy, PartialEq, Eq, Structural, Debug)]
pub struct Layers {
    pub phy: Verbosity,
    pub mac: Verbosity,
    pub rlc: Verbosity,
    pub pdcp: Verbosity,
    pub rrc: Verbosity,
    pub nas: Verbosity,
    pub s72: Verbosity,
    pub s1ap: Verbosity,
    pub ngap: Verbosity,
    pub gtpu: Verbosity,
    pub x2ap: Verbosity,
    pub xnap: Verbosity,
    pub m2ap: Verbosity,
    pub lppa: Verbosity,
    pub nrppa: Verbosity,
    pub trx: Verbosity,
}

/// The default filter: signalling layers verbose, everything else quiet.
pub open spec fn default_layers() -> Layers {
    Layers {
        phy: Verbosity::Wrn,
        mac: Verbosity::Wrn,
        rlc: Verbosity::Wrn,
        pdcp: Verbosity::Wrn,
        rrc: Verbosity::Dbg,
        nas: Verbosity::Dbg,
        s72: Verbosity::Wrn,
        s1ap: Verbosity::Wrn,
        ngap: Verbosity::Wrn,
        gtpu: Verbosity::Wrn,
        x2ap: Verbosity::Wrn,
        xnap: Verbosity::Wrn,
        m2ap: Verbosity::Wrn,
        lppa: Verbosity::Wrn,
        nrppa: Verbosity::Wrn,
        trx: Verbosity::Wrn,
    }
}

impl Layers {
    /// Build the default filter (RRC and NAS at debug, all other layers at
    /// warn).
    pub fn new() -> (r: Self)
        ensures
            r == default_layers(),
    {
        Layers {
            phy: Verbosity::Wrn,
            mac: Verbosity::Wrn,
            rlc: Verbosity::Wrn,
            pdcp: Verbosity::Wrn,
            rrc: Verbosity::Dbg,
            nas: Verbosity::Dbg,
            s72: Verbosity::Wrn,
            s1ap: Verbosity::Wrn,
            ngap: Verbosity::Wrn,
            gtpu: Verbosity::Wrn,
            x2ap: Verbosity::Wrn,
            xnap: Verbosity::Wrn,
            m2ap: Verbosity::Wrn,
            lppa: Verbosity::Wrn,
            nrppa: Verbosity::Wrn,
            trx: Verbosity::Wrn,
        }
    }
}

/// The level of layer `i`, in wire order.
pub open spec fn layer_at(l: Layers, i: int) -> Verbosity {
    if i == 0 {
        l.phy
    } else if i == 1 {
        l.mac
    } else if i == 2 {
        l.rlc
    } else if i == 3 {
        l.pdcp
    } else if i == 4 {
        l.rrc
    } else if i == 5 {
        l.nas
    } else if i == 6 {
        l.s72
    } else if i == 7 {
        l.s1ap
    } else if i == 8 {
        l.ngap
    } else if i == 9 {
        l.gtpu
    } else if i == 10 {
        l.x2ap
    } else if i == 11 {
        l.xnap
    } else if i == 12 {
        l.m2ap
    } else if i == 13 {
        l.lppa
    } else if i == 14 {
        l.nrppa
    } else {
        l.trx
    }
}

/// The filter whose levels, in wire order, are the first sixteen entries
/// of `q`.
pub open spec fn layers_of_seq(q: Seq<Verbosity>) -> Layers {
    Layers {
        phy: q[0],
        mac: q[1],
        rlc: q[2],
        pdcp: q[3],
        rrc: q[4],
        nas: q[5],
        s72: q[6],
        s1ap: q[7],
        ngap: q[8],
        gtpu: q[9],
        x2ap: q[10],
        xnap: q[11],
        m2ap: q[12],
        lppa: q[13],
        nrppa: q[14],
        trx: q[15],
    }
}

/// Everything of one layers entry up to its level word: the separating
/// comma (for every entry but the first), the quoted key, and the colon with
/// the level's opening quote.
pub open spec fn layer_prefix(i: int) -> Seq<char> {
    if i == 0 {
        "\"PHY\":\""@
    } else if i == 1 {
        ",\"MAC\":\""@
    } else if i == 2 {
        ",\"RLC\":\""@
    } else if i == 3 {
        ",\"PDCP\":\""@
    } else if i == 4 {
        ",\"RRC\":\""@
    } else if i == 5 {
        ",\"NAS\":\""@
    } else if i == 6 {
        ",\"S72\":\""@
    } else if i == 7 {
        ",\"S1AP\":\""@
    } else if i == 8 {
        ",\"NGAP\":\""@
    } else if i == 9 {
        ",\"GTPU\":\""@
    } else if i == 10 {
        ",\"X2AP\":\""@
    } else if i == 11 {
        ",\"XnAP\":\""@
    } else if i == 12 {
        ",\"M2AP\":\""@
    } else if i == 13 {
        ",\"LPPa\":\""@
    } else if i == 14 {
        ",\"NRPPa\":\""@
    } else {
        ",\"TRX\":\""@
    }
}

/// A log-retrieval request before encoding. `message_id` is the correlation
/// identifier the session assigns; the other fields size the answer.
#[derive(Clone, Copy, PartialEq, Eq, Structural, Debug)]
pub struct LogGet {
    pub timeout: u64,
    pub min: u64,
    pub max: u64,
    pub layers: Layers,
    pub headers: bool,
    pub message_id: u64,
}

/// The request the session issues when it has no reason to size one
/// differently: timeout 1, between 64 and 2048 records, no headers.
pub open spec fn default_log_get(id: u64) -> LogGet {
    LogGet { timeout: 1, min: 64, max: 2048, layers: default_layers(), headers: false, message_id: id }
}

impl LogGet {
    /// Build the default-sized request carrying correlation id `id`.
    pub fn new(id: u64) -> (r: Self)
        ensures
            r == default_log_get(id),
    {
        LogGet {
            timeout: 1,
            min: 64,
            max: 2048,
            layers: Layers::new(),
            headers: false,
            message_id: id,
        }
    }
}

/// True of the ten ASCII digit characters.
pub open spec fn is_digit(c: char) -> bool {
    48 <= c as int && c as int <= 57
}

/// The numeric value of a digit character.
pub open spec fn digit_val(c: char) -> int {
    c as int - 48
}

/// The digit character for a value below ten.
pub open spec fn digit_char(d: int) -> char {
    if d == 0 {
        '0'
    } else if d == 1 {
        '1'
    } else if d == 2 {
        '2'
    } else if d == 3 {
        '3'
    } else if d == 4 {
        '4'
    } else if d == 5 {
        '5'
    } else if d == 6 {
        '6'
    } else if d == 7 {
        '7'
    } else if d == 8 {
        '8'
    } else {
        '9'
    }
}

/// The decimal digit string of `n`, most significant digit first, without
/// leading zeros (except for `n == 0` itself).
pub open spec fn spec_digits(n: nat) -> Seq<char>
    decreases n,
{
    if n < 10 {
        seq![digit_char(n as int)]
    } else {
        spec_digits(n / 10).push(digit_char((n % 10) as int))
    }
}

/// The numeric value of a digit string, read most significant digit first.
pub open spec fn digits_val(s: Seq<char>) -> int
    decreases s.len(),
{
    if s.len() == 0 {
        0
    } else {
        digits_val(s.drop_last()) * 10 + digit_val(s.last())
    }
}

/// True when every character of `s` is a digit.
pub open spec fn all_digits(s: Seq<char>) -> bool {
    forall|i: int| 0 <= i < s.len() ==> is_digit(s[i])
}

/// The digit string of `n` is non-empty, made of digits only, and reads back
/// as `n`.
pub proof fn lemma_spec_digits_val(n: nat)
    ensures
        spec_digits(n).len() >= 1,
        all_digits(spec_digits(n)),
        digits_val(spec_digits(n)) == n,
    decreases n,
{
    if n < 10 {
        let s = spec_digits(n);
        assert(s == seq![digit_char(n as int)]);
        assert(s.drop_last() =~= Seq::<char>::empty());
        assert(digits_val(Seq::<char>::empty()) == 0);
        assert(digits_val(s) == digits_val(s.drop_last()) * 10 + digit_val(s.last()));
        assert(digit_val(digit_char(n as int)) == n);
        assert(is_digit(s[0]));
    } else {
        lemma_spec_digits_val(n / 10);
        let p = spec_digits(n / 10);
        let c = digit_char((n % 10) as int);
        let s = spec_digits(n);
        assert(s == p.push(c));
        assert(s.drop_last() =~= p);
        assert(s.last() == c);
        assert(digit_val(c) == n % 10);
        assert(digits_val(s) == digits_val(p) * 10 + n % 10);
        assert((n / 10) * 10 + n % 10 == n) by {
            vstd::arithmetic::div_mod::lemma_fundamental_div_mod(n as int, 10);
        }
        assert forall|i: int| 0 <= i < s.len() implies is_digit(s[i]) by {
            if i < p.len() {
                assert(s[i] == p[i]);
            } else {
                assert(s[i] == c);
            }
        }
    }
}

/// The one-character string for a digit value.
fn digit_str(d: u64) -> (r: &'static str)
    requires
        d < 10,
    ensures
        r@ =~= seq![digit_char(d as int)],
{
    proof {
        reveal_strlit("0");
        reveal_strlit("1");
        reveal_strlit("2");
        reveal_strlit("3");
        reveal_strlit("4");
        reveal_strlit("5");
        reveal_strlit("6");
        reveal_strlit("7");
        reveal_strlit("8");
        reveal_strlit("9");
    }
    match d {
        0 => "0",
        1 => "1",
        2 => "2",
        3 => "3",
        4 => "4",
        5 => "5",
        6 => "6",
        7 => "7",
        8 => "8",
        _ => "9",
    }
}

/// Render `n` in decimal.
pub fn digits_u64(n: u64) -> (r: String)
    ensures
        r@ == spec_digits(n as nat),
    decreases n,
{
    if n < 10 {
        digit_str(n).to_owned()
    } else {
        let mut s = digits_u64(n / 10);
        s.append(digit_str(n % 10));
        proof {
            assert(s@ =~= spec_digits((n / 10) as nat).push(digit_char((n % 10) as int)));
        }
        s
    }
}

/// The word that stands for a boolean on the wire.
pub open spec fn bool_chars(b: bool) -> Seq<char> {
    if b {
        "true"@
    } else {
        "false"@
    }
}

/// One `"KEY":"level"` entry of the layers object, with its leading comma
/// for every entry but the first.
pub open spec fn layers_item(l: Layers, i: int) -> Seq<char> {
    layer_prefix(i) + level_chars(layer_at(l, i)) + "\""@
}

/// The layers entries from `i` on, in wire order.
pub open spec fn layers_from(l: Layers, i: int) -> Seq<char>
    decreases 16 - i,
{
    if i >= 16 {
        Seq::<char>::empty()
    } else {
        layers_item(l, i) + layers_from(l, i + 1)
    }
}

/// The full wire text of a request: a JSON object with fixed field order and
/// fixed key names, no whitespace.
pub open spec fn spec_encode(r: LogGet) -> Seq<char> {
    "{\"timeout\":"@ + (spec_digits(r.timeout as nat) + (",\"min\":"@ + (spec_digits(r.min as nat)
        + (",\"max\":"@ + (spec_digits(r.max as nat) + (",\"layers\":{"@ + (layers_from(
        r.layers,
        0,
    ) + ("},\"message\":\"log_get\",\"headers\":"@ + (bool_chars(r.headers) + (",\"message_id\":"@
        + (spec_digits(r.message_id as nat) + "}"@)))))))))))
}

/// The wire word for a level.
fn level_str(v: Verbosity) -> (r: &'static str)
    ensures
        r@ == level_chars(v),
{
    match v {
        Verbosity::Dbg => "debug",
        Verbosity::Wrn => "warn",
    }
}

/// The wire text of a layers entry up to its level word.
fn layer_prefix_str(i: usize) -> (r: &'static str)
    requires
        i < 16,
    ensures
        r@ == layer_prefix(i as int),
{
    match i {
        0 => "\"PHY\":\"",
        1 => ",\"MAC\":\"",
        2 => ",\"RLC\":\"",
        3 => ",\"PDCP\":\"",
        4 => ",\"RRC\":\"",
        5 => ",\"NAS\":\"",
        6 => ",\"S72\":\"",
        7 => ",\"S1AP\":\"",
        8 => ",\"NGAP\":\"",
        9 => ",\"GTPU\":\"",
        10 => ",\"X2AP\":\"",
        11 => ",\"XnAP\":\"",
        12 => ",\"M2AP\":\"",
        13 => ",\"LPPa\":\"",
        14 => ",\"NRPPa\":\"",
        _ => ",\"TRX\":\"",
    }
}

/// Read the level of layer `i` out of a filter.
fn layer_get(l: &Layers, i: usize) -> (v: Verbosity)
    requires
        i < 16,
    ensures
        v == layer_at(*l, i as int),
{
    if i == 0 {
        l.phy
    } else if i == 1 {
        l.mac
    } else if i == 2 {
        l.rlc
    } else if i == 3 {
        l.pdcp
    } else if i == 4 {
        l.rrc
    } else if i == 5 {
        l.nas
    } else if i == 6 {
        l.s72
    } else if i == 7 {
        l.s1ap
    } else if i == 8 {
        l.ngap
    } else if i == 9 {
        l.gtpu
    } else if i == 10 {
        l.x2ap
    } else if i == 11 {
        l.xnap
    } else if i == 12 {
        l.m2ap
    } else if i == 13 {
        l.lppa
    } else if i == 14 {
        l.nrppa
    } else {
        l.trx
    }
}

/// Serialize a request to its wire text. Deterministic: the text is exactly
/// `spec_encode` of the request, character for character.
#[verifier::rlimit(100)]
pub fn encode(r: &LogGet) -> (out: String)
    ensures
        out@ == spec_encode(*r),
{
    let mut s = String::new();
    s.append("{\"timeout\":");
    let d_timeout = digits_u64(r.timeout);
    s.append(d_timeout.as_str());
    s.append(",\"min\":");
    let d_min = digits_u64(r.min);
    s.append(d_min.as_str());
    s.append(",\"max\":");
    let d_max = digits_u64(r.max);
    s.append(d_max.as_str());
    s.append(",\"layers\":{");
    let ghost pre = s@;
    let mut i: usize = 0;
    while i < 16
        invariant
            i <= 16,
            s@ + layers_from(r.layers, i as int) == pre + layers_from(r.layers, 0),
        decreases 16 - i,
    {
        let ghost s0 = s@;
        s.append(layer_prefix_str(i));
        s.append(level_str(layer_get(&r.layers, i)));
        s.append("\"");
        proof {
            assert(s@ =~= s0 + layers_item(r.layers, i as int));
            assert(layers_from(r.layers, i as int) == layers_item(r.layers, i as int)
                + layers_from(r.layers, i as int + 1));
            assert(s@ + layers_from(r.layers, i as int + 1) =~= s0 + layers_from(
                r.layers,
                i as int,
            ));
        }
        i += 1;
    }
    proof {
        assert(s@ + layers_from(r.layers, 16) =~= s@);
        assert(s@ == pre + layers_from(r.layers, 0));
    }
    s.append("},\"message\":\"log_get\",\"headers\":");
    if r.headers {
        s.append("true");
    } else {
        s.append("false");
    }
    s.append(",\"message_id\":");
    let d_id = digits_u64(r.message_id);
    s.append(d_id.as_str());
    s.append("}");
    proof {
        assert(s@ =~= spec_encode(*r));
    }
    s
}

/// Consume a literal prefix; the remainder on a match, nothing otherwise.
pub open spec fn spec_expect(s: Seq<char>, lit: Seq<char>) -> Option<Seq<char>> {
    if lit.len() <= s.len() && s.subrange(0, lit.len() as int) == lit {
        Some(s.subrange(lit.len() as int, s.len() as int))
    } else {
        None
    }
}

/// How many digit characters `s` starts with.
pub open spec fn digit_run_len(s: Seq<char>) -> nat
    decreases s.len(),
{
    if s.len() == 0 || !is_digit(s[0]) {
        0
    } else {
        1 + digit_run_len(s.drop_first())
    }
}

/// Consume the longest digit prefix and read it as a number. Nothing when
/// `s` does not start with a digit or the number does not fit in 64 bits.
pub open spec fn spec_parse_u64(s: Seq<char>) -> Option<(u64, Seq<char>)> {
    let k = digit_run_len(s) as int;
    if k == 0 {
        None
    } else if digits_val(s.subrange(0, k)) > u64::MAX {
        None
    } else {
        Some((digits_val(s.subrange(0, k)) as u64, s.subrange(k, s.len() as int)))
    }
}

/// Consume a level word.
pub open spec fn spec_parse_level(s: Seq<char>) -> Option<(Verbosity, Seq<char>)> {
    match spec_expect(s, "debug"@) {
        Some(rest) => Some((Verbosity::Dbg, rest)),
        None => match spec_expect(s, "warn"@) {
            Some(rest) => Some((Verbosity::Wrn, rest)),
            None => None,
        },
    }
}

/// Consume a boolean word.
pub open spec fn spec_parse_bool(s: Seq<char>) -> Option<(bool, Seq<char>)> {
    match spec_expect(s, "true"@) {
        Some(rest) => Some((true, rest)),
        None => match spec_expect(s, "false"@) {
            Some(rest) => Some((false, rest)),
            None => None,
        },
    }
}

/// Consume one layers entry: its fixed prefix, a level word, and the closing
/// quote.
pub open spec fn spec_parse_item(s: Seq<char>, i: int) -> Option<(Verbosity, Seq<char>)> {
    match spec_expect(s, layer_prefix(i)) {
        None => None,
        Some(s1) => match spec_parse_level(s1) {
            None => None,
            Some((v, s2)) => match spec_expect(s2, "\""@) {
                None => None,
                Some(s3) => Some((v, s3)),
            },
        },
    }
}

/// Consume the layers entries from `i` on, collecting each level in order.
pub open spec fn spec_parse_layers(s: Seq<char>, i: int, q: Seq<Verbosity>) -> Option<
    (Seq<Verbosity>, Seq<char>),
>
    decreases 16 - i,
{
    if i >= 16 {
        Some((q, s))
    } else {
        match spec_parse_item(s, i) {
            None => None,
            Some((v, rest)) => spec_parse_layers(rest, i + 1, q.push(v)),
        }
    }
}

/// Parse a whole request back out of its wire text. Nothing unless the text
/// is exactly a request as `spec_encode` lays one out, with nothing after
/// the closing brace.
pub open spec fn spec_decode_request(s: Seq<char>) -> Option<LogGet> {
    match spec_expect(s, "{\"timeout\":"@) {
        None => None,
        Some(s1) => match spec_parse_u64(s1) {
            None => None,
            Some((timeout, s2)) => match spec_expect(s2, ",\"min\":"@) {
                None => None,
                Some(s3) => match spec_parse_u64(s3) {
                    None => None,
                    Some((minv, s4)) => match spec_expect(s4, ",\"max\":"@) {
                        None => None,
                        Some(s5) => match spec_parse_u64(s5) {
                            None => None,
                            Some((maxv, s6)) => match spec_expect(s6, ",\"layers\":{"@) {
                                None => None,
                                Some(s7) => match spec_parse_layers(
                                    s7,
                                    0,
                                    Seq::<Verbosity>::empty(),
                                ) {
                                    None => None,
                                    Some((lq, s8)) => match spec_expect(
                                        s8,
                                        "},\"message\":\"log_get\",\"headers\":"@,
                                    ) {
                                        None => None,
                                        Some(s9) => match spec_parse_bool(s9) {
                                            None => None,
                                            Some((hdr, s10)) => match spec_expect(
                                                s10,
                                                ",\"message_id\":"@,
                                            ) {
                                                None => None,
                                                Some((s11)) => match spec_parse_u64(s11) {
                                                    None => None,
                                                    Some((id, s12)) => match spec_expect(
                                                        s12,
                                                        "}"@,
                                                    ) {
                                                        None => None,
                                                        Some(s13) => if s13.len() == 0 {
                                                            Some(
                                                                LogGet {
                                                                    timeout,
                                                                    min: minv,
                                                                    max: maxv,
                                                                    layers: layers_of_seq(lq),
                                                                    headers: hdr,
                                                                    message_id: id,
                                                                },
                                                            )
                                                        } else {
                                                            None
                                                        },
                                                    },
                                                },
                                            },
                                        },
                                    },
                                },
                            },
                        },
                    },
                },
            },
        },
    }
}

/// Consuming a literal off the front of a text that starts with it leaves
/// exactly the rest.
pub proof fn lemma_expect_concat(lit: Seq<char>, rest: Seq<char>)
    ensures
        spec_expect(lit + rest, lit) == Some(rest),
{
    let s = lit + rest;
    assert(s.subrange(0, lit.len() as int) =~= lit);
    assert(s.subrange(lit.len() as int, s.len() as int) =~= rest);
}

/// The digit run of `s`: it stays inside `s`, covers only digits, and ends
/// at the first non-digit.
pub proof fn lemma_digit_run_props(s: Seq<char>)
    ensures
        digit_run_len(s) <= s.len(),
        forall|j: int| 0 <= j < digit_run_len(s) ==> is_digit(s[j]),
        digit_run_len(s) == s.len() || !is_digit(s[digit_run_len(s) as int]),
    decreases s.len(),
{
    if s.len() == 0 || !is_digit(s[0]) {
    } else {
        lemma_digit_run_props(s.drop_first());
        let t = s.drop_first();
        let k = digit_run_len(s);
        assert(k == 1 + digit_run_len(t));
        assert forall|j: int| 0 <= j < k implies is_digit(s[j]) by {
            if j > 0 {
                assert(s[j] == t[j - 1]);
            }
        }
        if k < s.len() {
            assert(s[k as int] == t[k - 1]);
        }
    }
}

/// A run of digits followed by a non-digit (or by nothing) is the digit run
/// of the whole.
pub proof fn lemma_digit_run_concat(a: Seq<char>, r: Seq<char>)
    requires
        all_digits(a),
        r.len() == 0 || !is_digit(r[0]),
    ensures
        digit_run_len(a + r) == a.len(),
    decreases a.len(),
{
    if a.len() == 0 {
        assert(a + r =~= r);
    } else {
        assert((a + r)[0] == a[0]);
        assert((a + r).drop_first() =~= a.drop_first() + r);
        assert(all_digits(a.drop_first())) by {
            assert(forall|j: int|
                0 <= j < a.drop_first().len() ==> a.drop_first()[j] == a[j + 1]);
        }
        lemma_digit_run_concat(a.drop_first(), r);
    }
}

/// Over a digit string the value of a prefix never exceeds the value of the
/// whole, and neither is negative.
pub proof fn lemma_digits_val_prefix_le(s: Seq<char>, j: int)
    requires
        all_digits(s),
        0 <= j <= s.len(),
    ensures
        0 <= digits_val(s.subrange(0, j)),
        digits_val(s.subrange(0, j)) <= digits_val(s),
    decreases s.len(),
{
    if s.len() == 0 {
        assert(s.subrange(0, j) =~= s);
    } else {
        let p = s.drop_last();
        assert(all_digits(p)) by {
            assert(forall|t: int| 0 <= t < p.len() ==> p[t] == s[t]);
        }
        lemma_digits_val_prefix_le(p, if j <= p.len() { j } else { p.len() as int });
        assert(is_digit(s.last()));
        assert(0 <= digit_val(s.last()) <= 9);
        lemma_digits_val_prefix_le(p, p.len() as int);
        assert(p.subrange(0, p.len() as int) =~= p);
        assert(digits_val(s) == digits_val(p) * 10 + digit_val(s.last()));
        if j <= p.len() {
            assert(s.subrange(0, j) =~= p.subrange(0, j));
            assert(digits_val(p) * 10 >= digits_val(p));
        } else {
            assert(s.subrange(0, j) =~= s);
        }
    }
}

/// A digit string followed by anything that does not start with a digit
/// parses back as the number it spells.
pub proof fn lemma_parse_u64_digits(n: u64, rest: Seq<char>)
    requires
        rest.len() == 0 || !is_digit(rest[0]),
    ensures
        spec_parse_u64(spec_digits(n as nat) + rest) == Some((n, rest)),
{
    let d = spec_digits(n as nat);
    let s = d + rest;
    lemma_spec_digits_val(n as nat);
    lemma_digit_run_concat(d, rest);
    let k = d.len() as int;
    assert(s.subrange(0, k) =~= d);
    assert(s.subrange(k, s.len() as int) =~= rest);
}

/// A level word followed by anything parses back as that level.
pub proof fn lemma_parse_level(v: Verbosity, rest: Seq<char>)
    ensures
        spec_parse_level(level_chars(v) + rest) == Some((v, rest)),
{
    let s = level_chars(v) + rest;
    match v {
        Verbosity::Dbg => {
            lemma_expect_concat("debug"@, rest);
        },
        Verbosity::Wrn => {
            reveal_strlit("debug");
            reveal_strlit("warn");
            if 5 <= s.len() && s.subrange(0, 5) == "debug"@ {
                assert(s[0] == "warn"@[0]);
                assert(s.subrange(0, 5)[0] == 'd');
                assert(false);
            }
            lemma_expect_concat("warn"@, rest);
        },
    }
}

/// A boolean word followed by anything parses back as that boolean.
pub proof fn lemma_parse_bool(b: bool, rest: Seq<char>)
    ensures
        spec_parse_bool(bool_chars(b) + rest) == Some((b, rest)),
{
    let s = bool_chars(b) + rest;
    if b {
        lemma_expect_concat("true"@, rest);
    } else {
        reveal_strlit("true");
        reveal_strlit("false");
        if 4 <= s.len() && s.subrange(0, 4) == "true"@ {
            assert(s[0] == "false"@[0]);
            assert(s.subrange(0, 4)[0] == 't');
            assert(false);
        }
        lemma_expect_concat("false"@, rest);
    }
}

/// One encoded layers entry parses back as the level it carries.
pub proof fn lemma_parse_item(l: Layers, i: int, rest: Seq<char>)
    requires
        0 <= i < 16,
    ensures
        spec_parse_item(layers_item(l, i) + rest, i) == Some((layer_at(l, i), rest)),
{
    let lv = level_chars(layer_at(l, i));
    let s = layers_item(l, i) + rest;
    assert(s =~= layer_prefix(i) + (lv + ("\""@ + rest)));
    lemma_expect_concat(layer_prefix(i), lv + ("\""@ + rest));
    lemma_parse_level(layer_at(l, i), "\""@ + rest);
    lemma_expect_concat("\""@, rest);
}

/// The encoded layers entries from `i` on parse back into the levels they
/// were encoded from, appended in order to whatever was collected before.
pub proof fn lemma_parse_layers(l: Layers, q: Seq<Verbosity>, i: int, rest: Seq<char>)
    requires
        0 <= i <= 16,
    ensures
        ({
            let r = spec_parse_layers(layers_from(l, i) + rest, i, q);
            &&& r is Some
            &&& r->Some_0.1 == rest
            &&& r->Some_0.0.len() == q.len() + 16 - i
            &&& forall|t: int| 0 <= t < q.len() ==> r->Some_0.0[t] == q[t]
            &&& forall|t: int| i <= t < 16 ==> r->Some_0.0[q.len() + t - i] == layer_at(l, t)
        }),
    decreases 16 - i,
{
    if i >= 16 {
        assert(layers_from(l, 16) + rest =~= rest);
    } else {
        let s = layers_from(l, i) + rest;
        assert(s =~= layers_item(l, i) + (layers_from(l, i + 1) + rest));
        lemma_parse_item(l, i, layers_from(l, i + 1) + rest);
        let v = layer_at(l, i);
        lemma_parse_layers(l, q.push(v), i + 1, rest);
        let r2 = spec_parse_layers(layers_from(l, i + 1) + rest, i + 1, q.push(v));
        assert(spec_parse_layers(s, i, q) == r2);
        let out = r2->Some_0.0;
        assert forall|t: int| 0 <= t < q.len() implies out[t] == q[t] by {
            assert(out[t] == q.push(v)[t as int]);
        }
        assert forall|t: int| i <= t < 16 implies out[q.len() + t - i] == layer_at(l, t) by {
            if t == i {
                assert(out[q.len() as int] == q.push(v)[q.len() as int]);
            } else {
                assert(out[q.push(v).len() + t - (i + 1)] == layer_at(l, t));
            }
        }
    }
}

/// The whole layers object parses back to the filter it was encoded from.
pub proof fn lemma_layers_round(l: Layers, rest: Seq<char>)
    ensures
        ({
            let r = spec_parse_layers(layers_from(l, 0) + rest, 0, Seq::<Verbosity>::empty());
            &&& r is Some
            &&& r->Some_0.1 == rest
            &&& layers_of_seq(r->Some_0.0) == l
        }),
{
    lemma_parse_layers(l, Seq::<Verbosity>::empty(), 0, rest);
    let lq = spec_parse_layers(layers_from(l, 0) + rest, 0, Seq::<Verbosity>::empty())->Some_0.0;
    assert(lq[0] == layer_at(l, 0));
    assert(lq[1] == layer_at(l, 1));
    assert(lq[2] == layer_at(l, 2));
    assert(lq[3] == layer_at(l, 3));
    assert(lq[4] == layer_at(l, 4));
    assert(lq[5] == layer_at(l, 5));
    assert(lq[6] == layer_at(l, 6));
    assert(lq[7] == layer_at(l, 7));
    assert(lq[8] == layer_at(l, 8));
    assert(lq[9] == layer_at(l, 9));
    assert(lq[10] == layer_at(l, 10));
    assert(lq[11] == layer_at(l, 11));
    assert(lq[12] == layer_at(l, 12));
    assert(lq[13] == layer_at(l, 13));
    assert(lq[14] == layer_at(l, 14));
    assert(lq[15] == layer_at(l, 15));
    assert(layers_of_seq(lq) == l);
}

/// Round trip: every encoded request decodes back to itself.
#[verifier::rlimit(100)]
pub proof fn lemma_decode_encode(r: LogGet)
    ensures
        spec_decode_request(spec_encode(r)) == Some(r),
{
    reveal_strlit(",\"min\":");
    reveal_strlit(",\"max\":");
    reveal_strlit(",\"layers\":{");
    reveal_strlit("},\"message\":\"log_get\",\"headers\":");
    reveal_strlit(",\"message_id\":");
    reveal_strlit("}");
    let s13 = Seq::<char>::empty();
    let s12 = "}"@ + s13;
    let s11 = spec_digits(r.message_id as nat) + s12;
    let s10 = ",\"message_id\":"@ + s11;
    let s9 = bool_chars(r.headers) + s10;
    let s8 = "},\"message\":\"log_get\",\"headers\":"@ + s9;
    let s7 = layers_from(r.layers, 0) + s8;
    let s6 = ",\"layers\":{"@ + s7;
    let s5 = spec_digits(r.max as nat) + s6;
    let s4 = ",\"max\":"@ + s5;
    let s3 = spec_digits(r.min as nat) + s4;
    let s2 = ",\"min\":"@ + s3;
    let s1 = spec_digits(r.timeout as nat) + s2;
    let s = spec_encode(r);
    assert(s12 =~= "}"@) by {
        reveal_strlit("}");
    }
    assert(s == "{\"timeout\":"@ + s1);
    lemma_expect_concat("{\"timeout\":"@, s1);
    assert(s2[0] == ',');
    lemma_parse_u64_digits(r.timeout, s2);
    lemma_expect_concat(",\"min\":"@, s3);
    assert(s4[0] == ',');
    lemma_parse_u64_digits(r.min, s4);
    lemma_expect_concat(",\"max\":"@, s5);
    assert(s6[0] == ',');
    lemma_parse_u64_digits(r.max, s6);
    lemma_expect_concat(",\"layers\":{"@, s7);
    lemma_layers_round(r.layers, s8);
    assert(layers_of_seq(spec_parse_layers(s7, 0, Seq::<Verbosity>::empty())->Some_0.0)
        == r.layers);
    lemma_expect_concat("},\"message\":\"log_get\",\"headers\":"@, s9);
    lemma_parse_bool(r.headers, s10);
    lemma_expect_concat(",\"message_id\":"@, s11);
    assert(s12[0] == '}');
    lemma_parse_u64_digits(r.message_id, s12);
    lemma_expect_concat("}"@, s13);
}

/// What is left of `s` from position `pos` on.
pub open spec fn tail_from(s: Seq<char>, pos: int) -> Seq<char> {
    s.subrange(pos, s.len() as int)
}

/// True when position `i` of `s` holds a digit.
fn digit_at(s: &str, i: usize) -> (r: bool)
    ensures
        r == (i < s@.len() && is_digit(s@[i as int])),
{
    if i < s.unicode_len() {
        let c = s.get_char(i);
        (c as u32) >= 48 && (c as u32) <= 57
    } else {
        false
    }
}

/// Match a literal at position `pos`; the position right after it on a
/// match.
fn expect_at(s: &str, pos: usize, lit: &str) -> (r: Option<usize>)
    requires
        pos <= s@.len(),
    ensures
        match r {
            Some(p2) => {
                &&& pos <= p2 <= s@.len()
                &&& spec_expect(tail_from(s@, pos as int), lit@) == Some(
                    tail_from(s@, p2 as int),
                )
            },
            None => spec_expect(tail_from(s@, pos as int), lit@) is None,
        },
{
    let n = s.unicode_len();
    let m = lit.unicode_len();
    if m > n - pos {
        return None;
    }
    let mut j: usize = 0;
    while j < m
        invariant
            j <= m,
            pos + m <= n,
            n == s@.len(),
            m == lit@.len(),
            forall|t: int| 0 <= t < j ==> s@[pos + t] == lit@[t],
        decreases m - j,
    {
        if s.get_char(pos + j) != lit.get_char(j) {
            proof {
                let tl = tail_from(s@, pos as int);
                if m <= tl.len() && tl.subrange(0, m as int) == lit@ {
                    assert(tl.subrange(0, m as int)[j as int] == lit@[j as int]);
                    assert(tl[j as int] == s@[pos + j]);
                    assert(false);
                }
            }
            return None;
        }
        j += 1;
    }
    proof {
        let tl = tail_from(s@, pos as int);
        assert(tl.subrange(0, m as int) =~= lit@);
        assert(tl.subrange(m as int, tl.len() as int) =~= tail_from(s@, pos + m));
    }
    Some(pos + m)
}

/// Read a run of digits at position `pos` as a number; the value and the
/// position right after the run, unless there is no digit or the value does
/// not fit.
fn parse_u64_at(s: &str, pos: usize) -> (r: Option<(u64, usize)>)
    requires
        pos <= s@.len(),
    ensures
        match r {
            Some(vp) => {
                &&& pos < vp.1 <= s@.len()
                &&& spec_parse_u64(tail_from(s@, pos as int)) == Some(
                    (vp.0, tail_from(s@, vp.1 as int)),
                )
            },
            None => spec_parse_u64(tail_from(s@, pos as int)) is None,
        },
{
    let n = s.unicode_len();
    if !digit_at(s, pos) {
        proof {
            let tl = tail_from(s@, pos as int);
            if tl.len() > 0 {
                assert(tl[0] == s@[pos as int]);
            }
            assert(digit_run_len(tl) == 0);
        }
        return None;
    }
    let mut i: usize = pos;
    let mut val: u64 = 0;
    while digit_at(s, i)
        invariant
            pos <= i <= n,
            n == s@.len(),
            forall|t: int| pos <= t < i ==> is_digit(s@[t]),
            digits_val(s@.subrange(pos as int, i as int)) == val,
        decreases n - i,
    {
        let c = s.get_char(i);
        let d: u64 = (c as u32 - 48) as u64;
        proof {
            assert(is_digit(s@[i as int]));
            assert(d == digit_val(s@[i as int]));
        }
        if val > (u64::MAX - d) / 10 {
            proof {
                vstd::arithmetic::div_mod::lemma_fundamental_div_mod((u64::MAX - d) as int, 10);
                let tl = tail_from(s@, pos as int);
                lemma_digit_run_props(tl);
                let k = digit_run_len(tl) as int;
                assert forall|t: int| 0 <= t < i + 1 - pos implies is_digit(tl[t]) by {
                    assert(tl[t] == s@[pos + t]);
                }
                assert(k >= i + 1 - pos);
                let a1 = s@.subrange(pos as int, i + 1);
                assert(a1 =~= s@.subrange(pos as int, i as int).push(s@[i as int]));
                assert(a1.drop_last() =~= s@.subrange(pos as int, i as int));
                assert(digits_val(a1) == val * 10 + d);
                assert(val * 10 + d > u64::MAX);
                let ak = tl.subrange(0, k);
                assert(all_digits(ak)) by {
                    assert(forall|t: int| 0 <= t < k ==> ak[t] == tl[t]);
                }
                lemma_digits_val_prefix_le(ak, i + 1 - pos);
                assert(ak.subrange(0, i + 1 - pos) =~= a1);
                assert(digits_val(ak) >= digits_val(a1));
                assert(spec_parse_u64(tl) is None);
            }
            return None;
        }
        proof {
            vstd::arithmetic::div_mod::lemma_fundamental_div_mod((u64::MAX - d) as int, 10);
            assert(val * 10 + d <= u64::MAX);
        }
        val = val * 10 + d;
        proof {
            let a1 = s@.subrange(pos as int, i + 1);
            assert(a1 =~= s@.subrange(pos as int, i as int).push(s@[i as int]));
            assert(a1.drop_last() =~= s@.subrange(pos as int, i as int));
            assert(digits_val(a1) == val);
        }
        i += 1;
    }
    proof {
        let tl = tail_from(s@, pos as int);
        let a = s@.subrange(pos as int, i as int);
        let rr = tail_from(s@, i as int);
        assert(tl =~= a + rr);
        assert(all_digits(a)) by {
            assert(forall|t: int| 0 <= t < a.len() ==> a[t] == s@[pos + t]);
        }
        if rr.len() > 0 {
            assert(rr[0] == s@[i as int]);
        }
        lemma_digit_run_concat(a, rr);
        assert(digit_run_len(tl) == a.len());
        assert(tl.subrange(0, a.len() as int) =~= a);
        assert(tl.subrange(a.len() as int, tl.len() as int) =~= rr);
    }
    Some((val, i))
}

/// Read a level word at position `pos`.
fn parse_level_at(s: &str, pos: usize) -> (r: Option<(Verbosity, usize)>)
    requires
        pos <= s@.len(),
    ensures
        match r {
            Some(vp) => {
                &&& pos <= vp.1 <= s@.len()
                &&& spec_parse_level(tail_from(s@, pos as int)) == Some(
                    (vp.0, tail_from(s@, vp.1 as int)),
                )
            },
            None => spec_parse_level(tail_from(s@, pos as int)) is None,
        },
{
    match expect_at(s, pos, "debug") {
        Some(p2) => Some((Verbosity::Dbg, p2)),
        None => match expect_at(s, pos, "warn") {
            Some(p2) => Some((Verbosity::Wrn, p2)),
            None => None,
        },
    }
}

/// Read a boolean word at position `pos`.
fn parse_bool_at(s: &str, pos: usize) -> (r: Option<(bool, usize)>)
    requires
        pos <= s@.len(),
    ensures
        match r {
            Some(vp) => {
                &&& pos <= vp.1 <= s@.len()
                &&& spec_parse_bool(tail_from(s@, pos as int)) == Some(
                    (vp.0, tail_from(s@, vp.1 as int)),
                )
            },
            None => spec_parse_bool(tail_from(s@, pos as int)) is None,
        },
{
    match expect_at(s, pos, "true") {
        Some(p2) => Some((true, p2)),
        None => match expect_at(s, pos, "false") {
            Some(p2) => Some((false, p2)),
            None => None,
        },
    }
}

/// Pack sixteen levels, in wire order, into a filter.
fn layers_of_vec(q: &Vec<Verbosity>) -> (r: Layers)
    requires
        q@.len() == 16,
    ensures
        r == layers_of_seq(q@),
{
    Layers {
        phy: q[0],
        mac: q[1],
        rlc: q[2],
        pdcp: q[3],
        rrc: q[4],
        nas: q[5],
        s72: q[6],
        s1ap: q[7],
        ngap: q[8],
        gtpu: q[9],
        x2ap: q[10],
        xnap: q[11],
        m2ap: q[12],
        lppa: q[13],
        nrppa: q[14],
        trx: q[15],
    }
}

/// Read the sixteen layers entries at position `pos`.
fn parse_layers_at(s: &str, pos: usize) -> (r: Option<(Layers, usize)>)
    requires
        pos <= s@.len(),
    ensures
        match r {
            Some(vp) => {
                &&& pos <= vp.1 <= s@.len()
                &&& ({
                    let pr = spec_parse_layers(
                        tail_from(s@, pos as int),
                        0,
                        Seq::<Verbosity>::empty(),
                    );
                    &&& pr is Some
                    &&& vp.0 == layers_of_seq(pr->Some_0.0)
                    &&& pr->Some_0.1 == tail_from(s@, vp.1 as int)
                })
            },
            None => spec_parse_layers(tail_from(s@, pos as int), 0, Seq::<Verbosity>::empty())
                is None,
        },
{
    let mut q: Vec<Verbosity> = Vec::new();
    let mut p = pos;
    let mut i: usize = 0;
    while i < 16
        invariant
            i <= 16,
            pos <= p <= s@.len(),
            q@.len() == i,
            spec_parse_layers(tail_from(s@, pos as int), 0, Seq::<Verbosity>::empty())
                == spec_parse_layers(tail_from(s@, p as int), i as int, q@),
        decreases 16 - i,
    {
        let p2 = match expect_at(s, p, layer_prefix_str(i)) {
            Some(x) => x,
            None => {
                proof {
                    assert(spec_parse_item(tail_from(s@, p as int), i as int) is None);
                    assert(spec_parse_layers(tail_from(s@, p as int), i as int, q@) is None);
                }
                return None;
            },
        };
        let (v, p3) = match parse_level_at(s, p2) {
            Some(x) => x,
            None => {
                proof {
                    assert(spec_parse_item(tail_from(s@, p as int), i as int) is None);
                    assert(spec_parse_layers(tail_from(s@, p as int), i as int, q@) is None);
                }
                return None;
            },
        };
        let p4 = match expect_at(s, p3, "\"") {
            Some(x) => x,
            None => {
                proof {
                    assert(spec_parse_item(tail_from(s@, p as int), i as int) is None);
                    assert(spec_parse_layers(tail_from(s@, p as int), i as int, q@) is None);
                }
                return None;
            },
        };
        proof {
            assert(spec_parse_item(tail_from(s@, p as int), i as int) == Some(
                (v, tail_from(s@, p4 as int)),
            ));
            assert(spec_parse_layers(tail_from(s@, p as int), i as int, q@)
                == spec_parse_layers(tail_from(s@, p4 as int), i as int + 1, q@.push(v)));
        }
        q.push(v);
        p = p4;
        i += 1;
    }
    Some((layers_of_vec(&q), p))
}

/// Parse a request back out of its wire text. Nothing unless the whole text
/// is exactly one encoded request.
pub fn decode_request(s: &str) -> (r: Option<LogGet>)
    ensures
        r == spec_decode_request(s@),
{
    proof {
        assert(tail_from(s@, 0) =~= s@);
    }
    let p1 = match expect_at(s, 0, "{\"timeout\":") {
        Some(x) => x,
        None => return None,
    };
    let (timeout, p2) = match parse_u64_at(s, p1) {
        Some(x) => x,
        None => return None,
    };
    let p3 = match expect_at(s, p2, ",\"min\":") {
        Some(x) => x,
        None => return None,
    };
    let (minv, p4) = match parse_u64_at(s, p3) {
        Some(x) => x,
        None => return None,
    };
    let p5 = match expect_at(s, p4, ",\"max\":") {
        Some(x) => x,
        None => return None,
    };
    let (maxv, p6) = match parse_u64_at(s, p5) {
        Some(x) => x,
        None => return None,
    };
    let p7 = match expect_at(s, p6, ",\"layers\":{") {
        Some(x) => x,
        None => return None,
    };
    let (lay, p8) = match parse_layers_at(s, p7) {
        Some(x) => x,
        None => return None,
    };
    let p9 = match expect_at(s, p8, "},\"message\":\"log_get\",\"headers\":") {
        Some(x) => x,
        None => return None,
    };
    let (hdr, p10) = match parse_bool_at(s, p9) {
        Some(x) => x,
        None => return None,
    };
    let p11 = match expect_at(s, p10, ",\"message_id\":") {
        Some(x) => x,
        None => return None,
    };
    let (id, p12) = match parse_u64_at(s, p11) {
        Some(x) => x,
        None => return None,
    };
    let p13 = match expect_at(s, p12, "}") {
        Some(x) => x,
        None => return None,
    };
    if p13 != s.unicode_len() {
        return None;
    }
    Some(LogGet { timeout, min: minv, max: maxv, layers: lay, headers: hdr, message_id: id })
}

/// An inbound record as the session keeps it: the payload text, opaque to
/// everything but the viewer, in arrival order.
pub struct LogEvent {
    pub text: String,
}

impl View for LogEvent {
    type V = Seq<char>;

    open spec fn view(&self) -> Seq<char> {
        self.text@
    }
}

impl Clone for LogEvent {
    fn clone(&self) -> (r: Self)
        ensures
            r@ == self@,
    {
        LogEvent { text: self.text.clone() }
    }
}

/// Why an inbound payload was dropped.
#[derive(Clone, Copy, PartialEq, Eq, Structural, Debug)]
pub enum DecodeError {
    Malformed,
}

/// The shape an inbound payload must have to be kept: a braced object. The
/// payload of a record is otherwise opaque, so no more than the frame is
/// checked.
pub open spec fn wf_inbound(s: Seq<char>) -> bool {
    s.len() >= 2 && s[0] == '{' && s[s.len() - 1] == '}'
}

/// Best-effort decode of one inbound payload: the record on success,
/// `Malformed` exactly when the payload is not a braced object.
pub fn decode(raw: &str) -> (r: Result<LogEvent, DecodeError>)
    ensures
        match r {
            Ok(e) => wf_inbound(raw@) && e@ == raw@,
            Err(e) => !wf_inbound(raw@) && e == DecodeError::Malformed,
        },
{
    let n = raw.unicode_len();
    if n < 2 {
        return Err(DecodeError::Malformed);
    }
    let c0 = raw.get_char(0);
    let c1 = raw.get_char(n - 1);
    if c0 == '{' && c1 == '}' {
        Ok(LogEvent { text: raw.to_owned() })
    } else {
        Err(DecodeError::Malformed)
    }
}

} // verus!

use vstd::prelude::*;
use vstd::string::*;

verus! {

/// Why a serial number or a log reference could not be read.
#[derive(Clone, Copy, PartialEq, Eq, Debug, Structural)]
pub enum CodecError {
    /// The log reference does not follow the `<position+1>-<rest>` convention.
    MalformedReference,
    /// The serial is shorter than 13 characters, its sequence field is not
    /// numeric, or the sequence number is smaller than the position.
    MalformedSerial,
}

/// A character of the decimal alphabet.
pub open spec fn is_digit(c: char) -> bool {
    '0' <= c && c <= '9'
}

pub open spec fn all_digits(s: Seq<char>) -> bool {
    forall|i: int| 0 <= i < s.len() ==> is_digit(#[trigger] s[i])
}

pub open spec fn digit_value(c: char) -> nat {
    (c as int - '0' as int) as nat
}

/// The character that writes the decimal digit `d` (`d < 10`).
pub open spec fn digit_char(d: nat) -> char {
    if d == 0 {
        '0'
    } else if d == 1 {
        '1'
    } else if d == 2 {
        '2'
    } else if d == 3 {
        '3'
    } else if d == 4 {
        '4'
    } else if d == 5 {
        '5'
    } else if d == 6 {
        '6'
    } else if d == 7 {
        '7'
    } else if d == 8 {
        '8'
    } else {
        '9'
    }
}

/// The number that a string of decimal digits writes, most significant first.
pub open spec fn decimal_value(s: Seq<char>) -> nat
    decreases s.len(),
{
    if s.len() == 0 {
        0
    } else {
        decimal_value(s.drop_last()) * 10 + digit_value(s.last())
    }
}

pub open spec fn pow10(k: nat) -> nat
    decreases k,
{
    if k == 0 {
        1
    } else {
        10 * pow10((k - 1) as nat)
    }
}

/// The decimal digits of `n`, left-padded with zeros to a width of at least `w`.
pub open spec fn padded_decimal(n: nat, w: nat) -> Seq<char>
    decreases n + w,
{
    if n < 10 && w <= 1 {
        seq![digit_char(n)]
    } else {
        padded_decimal(n / 10, if w > 0 { (w - 1) as nat } else { 0 }).push(digit_char(n % 10))
    }
}


/// The digits of an unsigned number written as text: one leading `+` is
/// allowed before them.
pub open spec fn unsigned_digits(s: Seq<char>) -> Seq<char> {
    if s.len() > 0 && s[0] == '+' {
        s.subrange(1, s.len() as int)
    } else {
        s
    }
}

/// A text that reads as an unsigned number: an optional `+`, then at least
/// one decimal digit and nothing else.
pub open spec fn is_unsigned_text(s: Seq<char>) -> bool {
    unsigned_digits(s).len() > 0 && all_digits(unsigned_digits(s))
}

pub open spec fn unsigned_value(s: Seq<char>) -> nat {
    decimal_value(unsigned_digits(s))
}

/// The sequence number held in characters [6, 13) of a serial.
pub open spec fn sequence_number(serial: Seq<char>) -> nat {
    unsigned_value(serial.subrange(6, 13))
}

/// A serial from which the serials of a panel can be generated for a board at `position`.
pub open spec fn serial_well_formed(serial: Seq<char>, position: nat) -> bool {
    &&& serial.len() >= 13
    &&& is_unsigned_text(serial.subrange(6, 13))
    &&& sequence_number(serial) >= position
}

/// `serial` with its sequence field replaced by `seq_no`, zero-padded to seven digits.
pub open spec fn with_sequence(serial: Seq<char>, seq_no: nat) -> Seq<char> {
    serial.subrange(0, 6) + padded_decimal(seq_no, 7) + serial.subrange(13, serial.len() as int)
}

/// The serials of a panel of `n` boards, indexed by position, given the serial
/// of the board at `position`.
pub open spec fn panel_serials(serial: Seq<char>, position: nat, n: nat) -> Seq<Seq<char>> {
    Seq::new(n, |i: int| with_sequence(serial, (sequence_number(serial) - position + i) as nat))
}

pub open spec fn is_separator(c: char) -> bool {
    c == '/' || c == '\\'
}

/// Where the final path segment of `s` starts: just after its last separator.
pub open spec fn segment_start(s: Seq<char>) -> nat
    decreases s.len(),
{
    if s.len() == 0 {
        0
    } else if is_separator(s.last()) {
        s.len()
    } else {
        segment_start(s.drop_last())
    }
}

pub open spec fn last_segment(s: Seq<char>) -> Seq<char> {
    s.subrange(segment_start(s) as int, s.len() as int)
}

/// The index of the first `c` of `s` at or after `i`, or `s.len()` when there is none.
pub open spec fn first_index_from(s: Seq<char>, c: char, i: nat) -> nat
    decreases s.len() - i,
{
    if i >= s.len() {
        s.len()
    } else if s[i as int] == c {
        i
    } else {
        first_index_from(s, c, i + 1)
    }
}

/// What stands before the first `-` of the file name of a log reference.
pub open spec fn reference_prefix(r: Seq<char>) -> Seq<char> {
    last_segment(r).subrange(0, first_index_from(last_segment(r), '-', 0) as int)
}

/// A log reference whose file name reads `<k>-<rest>`, with `k` a decimal
/// number from 1 to 255.
pub open spec fn reference_valid(r: Seq<char>) -> bool {
    &&& first_index_from(last_segment(r), '-', 0) < last_segment(r).len()
    &&& is_unsigned_text(reference_prefix(r))
    &&& 1 <= unsigned_value(reference_prefix(r)) <= 255
}

/// The 0-based board position that a valid log reference names.
pub open spec fn reference_position(r: Seq<char>) -> nat {
    (unsigned_value(reference_prefix(r)) - 1) as nat
}

pub proof fn lemma_digit_char(d: nat)
    requires
        d < 10,
    ensures
        is_digit(digit_char(d)),
        digit_value(digit_char(d)) == d,
{
}

pub proof fn lemma_digit_round_trip(c: char)
    requires
        is_digit(c),
    ensures
        digit_value(c) < 10,
        digit_char(digit_value(c)) == c,
{
}

proof fn lemma_pow10_7()
    ensures
        pow10(7) == 10000000,
{
    assert(pow10(0) == 1);
    assert(pow10(1) == 10);
    assert(pow10(2) == 100);
    assert(pow10(3) == 1000);
    assert(pow10(4) == 10000);
    assert(pow10(5) == 100000);
    assert(pow10(6) == 1000000);
}

proof fn lemma_pow10_6()
    ensures
        pow10(6) == 1000000,
{
    assert(pow10(0) == 1);
    assert(pow10(1) == 10);
    assert(pow10(2) == 100);
    assert(pow10(3) == 1000);
    assert(pow10(4) == 10000);
    assert(pow10(5) == 100000);
}

proof fn lemma_prefix_value_le(s: Seq<char>, k: int)
    requires
        0 <= k <= s.len(),
    ensures
        decimal_value(s.subrange(0, k)) <= decimal_value(s),
    decreases s.len(),
{
    if k < s.len() {
        lemma_prefix_value_le(s.drop_last(), k);
        assert(s.drop_last().subrange(0, k) =~= s.subrange(0, k));
    } else {
        assert(s.subrange(0, k) =~= s);
    }
}

proof fn lemma_value_below_pow10(s: Seq<char>)
    requires
        all_digits(s),
    ensures
        decimal_value(s) < pow10(s.len()),
    decreases s.len(),
{
    if s.len() > 0 {
        let t = s.drop_last();
        assert(all_digits(t)) by {
            assert forall|i: int| 0 <= i < t.len() implies is_digit(#[trigger] t[i]) by {
                assert(t[i] == s[i]);
            }
        }
        lemma_value_below_pow10(t);
        lemma_digit_round_trip(s.last());
        assert(is_digit(s[s.len() - 1]));
    }
}

/// A number below `10^w` written with padding to width `w` takes exactly `w`
/// digits, and reads back as itself.
pub proof fn lemma_padded_digits(n: nat, w: nat)
    requires
        w >= 1,
        n < pow10(w),
    ensures
        padded_decimal(n, w).len() == w,
        all_digits(padded_decimal(n, w)),
        decimal_value(padded_decimal(n, w)) == n,
    decreases w,
{
    let s = padded_decimal(n, w);
    if w == 1 {
        assert(pow10(0) == 1);
        lemma_digit_char(n);
        assert(s.drop_last() =~= Seq::<char>::empty());
        assert(decimal_value(s) == decimal_value(s.drop_last()) * 10 + digit_value(s.last()));
    } else {
        let w2 = (w - 1) as nat;
        assert(n / 10 < pow10(w2)) by (nonlinear_arith)
            requires
                n < pow10(w),
                pow10(w) == 10 * pow10(w2),
        ;
        lemma_padded_digits(n / 10, w2);
        lemma_digit_char(n % 10);
        let t = padded_decimal(n / 10, w2);
        assert(s == t.push(digit_char(n % 10)));
        assert(s.drop_last() =~= t);
        assert forall|i: int| 0 <= i < s.len() implies is_digit(#[trigger] s[i]) by {
            if i < t.len() {
                assert(s[i] == t[i]);
            }
        }
        assert(decimal_value(s) == decimal_value(t) * 10 + digit_value(digit_char(n % 10)));
        assert(n == (n / 10) * 10 + n % 10);
    }
}

/// Digits written back with padding to their own width come out unchanged.
pub proof fn lemma_padded_of_digits(s: Seq<char>)
    requires
        all_digits(s),
        s.len() >= 1,
    ensures
        padded_decimal(decimal_value(s), s.len()) == s,
    decreases s.len(),
{
    let n = decimal_value(s);
    let t = s.drop_last();
    let c = s.last();
    assert(is_digit(s[s.len() - 1]));
    lemma_digit_round_trip(c);
    if s.len() == 1 {
        assert(t.len() == 0);
        assert(decimal_value(t) == 0);
        assert(s =~= seq![c]);
    } else {
        assert(all_digits(t)) by {
            assert forall|i: int| 0 <= i < t.len() implies is_digit(#[trigger] t[i]) by {
                assert(t[i] == s[i]);
            }
        }
        lemma_padded_of_digits(t);
        let tv = decimal_value(t);
        let d = digit_value(c);
        assert(n == tv * 10 + d);
        assert(n / 10 == tv && n % 10 == d) by (nonlinear_arith)
            requires
                n == tv * 10 + d,
                d < 10,
        ;
        assert(s =~= t.push(c));
    }
}

/// The one-character string that writes the digit `d`.
fn digit_str(d: u32) -> (r: &'static str)
    requires
        d < 10,
    ensures
        r@ =~= seq![digit_char(d as nat)],
{
    if d == 0 {
        proof { reveal_strlit("0"); }
        "0"
    } else if d == 1 {
        proof { reveal_strlit("1"); }
        "1"
    } else if d == 2 {
        proof { reveal_strlit("2"); }
        "2"
    } else if d == 3 {
        proof { reveal_strlit("3"); }
        "3"
    } else if d == 4 {
        proof { reveal_strlit("4"); }
        "4"
    } else if d == 5 {
        proof { reveal_strlit("5"); }
        "5"
    } else if d == 6 {
        proof { reveal_strlit("6"); }
        "6"
    } else if d == 7 {
        proof { reveal_strlit("7"); }
        "7"
    } else if d == 8 {
        proof { reveal_strlit("8"); }
        "8"
    } else {
        proof { reveal_strlit("9"); }
        "9"
    }
}

/// Appends `n` in decimal, left-padded with zeros to a width of at least `w`.
fn append_padded(out: &mut String, n: u32, w: u32)
    ensures
        final(out)@ == old(out)@ + padded_decimal(n as nat, w as nat),
    decreases n + w,
{
    if n < 10 && w <= 1 {
        out.append(digit_str(n));
    } else {
        let w2: u32 = if w > 0 { w - 1 } else { 0 };
        let ghost mid = out@;
        append_padded(out, n / 10, w2);
        out.append(digit_str(n % 10));
        assert(padded_decimal(n as nat, w as nat) == padded_decimal((n / 10) as nat, w2 as nat).push(
            digit_char((n % 10) as nat),
        ));
        assert(out@ =~= mid + padded_decimal(n as nat, w as nat));
    }
}

/// Reads a string of decimal digits whose value is at most `limit`.
pub fn parse_decimal(s: &str, limit: u32) -> (r: Option<u32>)
    ensures
        r.is_some() <==> (s@.len() > 0 && all_digits(s@) && decimal_value(s@) <= limit),
        r.is_some() ==> r.unwrap() as nat == decimal_value(s@),
{
    let n = s.unicode_len();
    if n == 0 {
        return None;
    }
    let mut v: u64 = 0;
    let mut i: usize = 0;
    while i < n
        invariant
            0 <= i <= n,
            n == s@.len(),
            all_digits(s@.subrange(0, i as int)),
            v == decimal_value(s@.subrange(0, i as int)),
            v <= limit,
        decreases n - i,
    {
        let c = s.get_char(i);
        if c < '0' || c > '9' {
            assert(!is_digit(s@[i as int]));
            return None;
        }
        let d: u64 = (c as u32 - '0' as u32) as u64;
        let nv: u64 = v * 10 + d;
        let ghost next = s@.subrange(0, i + 1);
        assert(next.drop_last() =~= s@.subrange(0, i as int));
        assert(all_digits(next)) by {
            assert forall|j: int| 0 <= j < next.len() implies is_digit(#[trigger] next[j]) by {
                if j < i {
                    assert(next[j] == s@.subrange(0, i as int)[j]);
                }
            }
        }
        if nv > limit as u64 {
            proof {
                lemma_prefix_value_le(s@, i + 1);
            }
            return None;
        }
        v = nv;
        i = i + 1;
    }
    assert(s@.subrange(0, n as int) =~= s@);
    Some(v as u32)
}

/// Reads an unsigned number written as text (an optional `+`, then
/// decimal digits) whose value is at most `limit`.
pub fn parse_unsigned(s: &str, limit: u32) -> (r: Option<u32>)
    ensures
        r.is_some() <==> (is_unsigned_text(s@) && unsigned_value(s@) <= limit),
        r.is_some() ==> r.unwrap() as nat == unsigned_value(s@),
{
    let n = s.unicode_len();
    if n > 0 && s.get_char(0) == '+' {
        parse_decimal(s.substring_char(1, n), limit)
    } else {
        parse_decimal(s, limit)
    }
}

/// The serials of the panel that `serial` belongs to, given the board's
/// `position` on it and the panel's size `max_pos`: the sequence field
/// (characters [6, 13)) runs from `sequence - position` upwards, one per
/// position, and the rest of the serial is kept.
pub fn generate_serials(serial: String, position: u8, max_pos: u8) -> (r: Result<
    Vec<String>,
    CodecError,
>)
    ensures
        match r {
            Ok(v) => {
                &&& serial_well_formed(serial@, position as nat)
                &&& v@.len() == max_pos
                &&& forall|i: int|
                    0 <= i < max_pos ==> #[trigger] v@[i]@ == panel_serials(
                        serial@,
                        position as nat,
                        max_pos as nat,
                    )[i]
            },
            Err(e) => !serial_well_formed(serial@, position as nat) && e == CodecError::MalformedSerial,
        },
{
    let len = serial.as_str().unicode_len();
    if len < 13 {
        return Err(CodecError::MalformedSerial);
    }
    let field = serial.as_str().substring_char(6, 13);
    let parsed = parse_unsigned(field, 9999999);
    proof {
        if is_unsigned_text(field@) {
            lemma_value_below_pow10(unsigned_digits(field@));
            lemma_pow10_7();
            lemma_pow10_6();
        }
    }
    let sn = match parsed {
        Some(v) => v,
        None => {
            return Err(CodecError::MalformedSerial);
        },
    };
    if sn < position as u32 {
        return Err(CodecError::MalformedSerial);
    }
    let base: u32 = sn - position as u32;
    let head = serial.as_str().substring_char(0, 6);
    let tail = serial.as_str().substring_char(13, len);
    let ghost expected = panel_serials(serial@, position as nat, max_pos as nat);
    let mut ret: Vec<String> = Vec::with_capacity(max_pos as usize);
    let mut i: u32 = 0;
    while i < max_pos as u32
        invariant
            i <= max_pos,
            base as nat == sequence_number(serial@) - position as nat,
            base <= 9999999,
            head@ == serial@.subrange(0, 6),
            tail@ == serial@.subrange(13, serial@.len() as int),
            expected == panel_serials(serial@, position as nat, max_pos as nat),
            ret@.len() == i,
            forall|j: int| 0 <= j < i ==> #[trigger] ret@[j]@ == expected[j],
        decreases max_pos - i,
    {
        let mut s = String::from_str(head);
        append_padded(&mut s, base + i, 7);
        s.append(tail);
        assert(s@ =~= expected[i as int]);
        ret.push(s);
        i = i + 1;
    }
    Ok(ret)
}

/// The 0-based board position named by a log reference: the file name (what
/// follows the last `/` or `\`) reads `<position+1>-<rest>`.
pub fn get_pos_from_logname(log_file_name: &str) -> (r: Result<u8, CodecError>)
    ensures
        match r {
            Ok(p) => reference_valid(log_file_name@) && p as nat == reference_position(
                log_file_name@,
            ),
            Err(e) => !reference_valid(log_file_name@) && e == CodecError::MalformedReference,
        },
{
    let ghost name = log_file_name@;
    let len = log_file_name.unicode_len();
    let mut start: usize = 0;
    let mut i: usize = 0;
    while i < len
        invariant
            i <= len,
            name == log_file_name@,
            len == name.len(),
            start as nat == segment_start(name.subrange(0, i as int)),
            start <= i,
        decreases len - i,
    {
        let c = log_file_name.get_char(i);
        assert(name.subrange(0, i + 1).drop_last() =~= name.subrange(0, i as int));
        if c == '/' || c == '\\' {
            start = i + 1;
        }
        i = i + 1;
    }
    assert(name.subrange(0, len as int) =~= name);
    let seg = log_file_name.substring_char(start, len);
    assert(seg@ == last_segment(name));
    let seg_len: usize = len - start;
    let k = find_char(seg, '-', 0);
    if k == seg_len {
        return Err(CodecError::MalformedReference);
    }
    let prefix = seg.substring_char(0, k);
    assert(prefix@ == reference_prefix(name));
    match parse_unsigned(prefix, 255) {
        Some(v) => {
            if v == 0 {
                Err(CodecError::MalformedReference)
            } else {
                Ok((v - 1) as u8)
            }
        },
        None => Err(CodecError::MalformedReference),
    }
}

/// When the sequence field is written in digits alone, the serial generated
/// for the board's own position is the serial it was generated from.
pub proof fn lemma_own_serial_kept(serial: Seq<char>, p: nat, n: nat)
    requires
        serial_well_formed(serial, p),
        all_digits(serial.subrange(6, 13)),
        p < n,
    ensures
        panel_serials(serial, p, n)[p as int] == serial,
{
    let field = serial.subrange(6, 13);
    assert(is_digit(field[0]));
    assert(unsigned_digits(field) == field);
    lemma_padded_of_digits(field);
    assert(panel_serials(serial, p, n)[p as int] == with_sequence(serial, sequence_number(serial)));
    assert(with_sequence(serial, sequence_number(serial)) =~= serial);
}

/// While the sequence numbers stay below `10^7`, each generated serial
/// carries a seven-digit sequence field, and the fields strictly increase
/// with the position.
pub proof fn lemma_sequence_fields_increase(serial: Seq<char>, p: nat, n: nat)
    requires
        serial_well_formed(serial, p),
        sequence_number(serial) - p + n <= 10000000,
    ensures
        panel_serials(serial, p, n).len() == n,
        forall|i: int|
            0 <= i < n ==> {
                let s = #[trigger] panel_serials(serial, p, n)[i];
                &&& s.len() == serial.len()
                &&& all_digits(s.subrange(6, 13))
                &&& sequence_number(s) == sequence_number(serial) - p + i
            },
        forall|i: int, j: int|
            0 <= i < j < n ==> sequence_number(#[trigger] panel_serials(serial, p, n)[i])
                < sequence_number(#[trigger] panel_serials(serial, p, n)[j]),
{
    lemma_pow10_7();
    assert forall|i: int| 0 <= i < n implies {
        let s = #[trigger] panel_serials(serial, p, n)[i];
        &&& s.len() == serial.len()
        &&& all_digits(s.subrange(6, 13))
        &&& sequence_number(s) == sequence_number(serial) - p + i
    } by {
        let v = (sequence_number(serial) - p + i) as nat;
        lemma_padded_digits(v, 7);
        let s = panel_serials(serial, p, n)[i];
        assert(s == with_sequence(serial, v));
        assert(s.subrange(6, 13) =~= padded_decimal(v, 7));
        assert(is_digit(s.subrange(6, 13)[0]));
        assert(unsigned_digits(s.subrange(6, 13)) == s.subrange(6, 13));
    }
}

/// The index of the first `c` of `s` at or after `from`, or its length.
pub(crate) fn find_char(s: &str, c: char, from: usize) -> (r: usize)
    requires
        from <= s@.len(),
    ensures
        from <= r <= s@.len(),
        r == first_index_from(s@, c, from as nat),
{
    let n = s.unicode_len();
    let mut k: usize = from;
    loop
        invariant
            from <= k <= n,
            n == s@.len(),
            first_index_from(s@, c, k as nat) == first_index_from(s@, c, from as nat),
        ensures
            k <= n,
            first_index_from(s@, c, k as nat) == first_index_from(s@, c, from as nat),
            k < n ==> s@[k as int] == c,
        decreases n - k,
    {
        if k == n {
            break;
        }
        if s.get_char(k) == c {
            break;
        }
        k = k + 1;
    }
    k
}

/// The directory in which an archived log is kept, named after the date
/// that its file name carries after the first `-` (`yymmdd`): `20yy_mm_dd`.
pub open spec fn dated_dir_name(name: Seq<char>) -> Seq<char> {
    let d = first_index_from(name, '-', 0) + 1int;
    "20"@ + name.subrange(d, d + 2) + "_"@ + name.subrange(d + 2, d + 4) + "_"@ + name.subrange(
        d + 4,
        d + 6,
    )
}

/// Whether a log file name has a `-` followed by at least six characters.
pub open spec fn has_dated_name(name: Seq<char>) -> bool {
    first_index_from(name, '-', 0) + 7 <= name.len()
}

/// The dated directory of an archived log, for a file name `<k>-<yymmdd>...`.
pub fn dated_log_dir(file_name: &str) -> (r: Option<String>)
    ensures
        r is Some <==> has_dated_name(file_name@),
        r is Some ==> r->Some_0@ == dated_dir_name(file_name@),
{
    let n = file_name.unicode_len();
    let k = find_char(file_name, '-', 0);
    if k == n || n - k < 7 {
        return None;
    }
    let d = k + 1;
    let mut dir = String::from_str("20");
    dir.append(file_name.substring_char(d, d + 2));
    dir.append("_");
    dir.append(file_name.substring_char(d + 2, d + 4));
    dir.append("_");
    dir.append(file_name.substring_char(d + 4, d + 6));
    Some(dir)
}

} // verus!

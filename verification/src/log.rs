//! The flat log store: an append-only, human-readable, comma-delimited
//! record of user actions that can be replayed into status records.
//!
//! Everything here is pure: the functions turn file contents into records
//! and back, and the caller does the reading and writing. The format is one
//! header line, then one `subject_id,status,timestamp` line per action.
use vstd::prelude::*;

use crate::errors::StoreError;
use crate::models::{valid_status, RecordView, UserAnimeData};

verus! {

// ---------------------------------------------------------------------------
// Decimal rendering and parsing of record keys.
// ---------------------------------------------------------------------------

/// The decimal digit characters, by value; anything else is `-1`.
pub open spec fn digit_val(c: char) -> int {
    if c == '0' {
        0
    } else if c == '1' {
        1
    } else if c == '2' {
        2
    } else if c == '3' {
        3
    } else if c == '4' {
        4
    } else if c == '5' {
        5
    } else if c == '6' {
        6
    } else if c == '7' {
        7
    } else if c == '8' {
        8
    } else if c == '9' {
        9
    } else {
        -1
    }
}

pub open spec fn is_digit(c: char) -> bool {
    digit_val(c) >= 0
}

/// The digit character for a value below ten.
pub open spec fn digit_char(d: int) -> char {
    if d == 0 {
        '0'
    } else if d == 1 {
        '1'
    } else if d == 2 {
        '2'
    } else if d == 3 {
        '3'
    } else if d == 4 {
        '4'
    } else if d == 5 {
        '5'
    } else if d == 6 {
        '6'
    } else if d == 7 {
        '7'
    } else if d == 8 {
        '8'
    } else {
        '9'
    }
}

/// The canonical decimal rendering of a natural number.
pub open spec fn dec_digits(n: nat) -> Seq<char>
    decreases n,
{
    if n < 10 {
        seq![digit_char(n as int)]
    } else {
        dec_digits(n / 10).push(digit_char((n % 10) as int))
    }
}

/// The canonical decimal rendering of an integer, with a leading minus
/// sign when negative.
pub open spec fn dec_int(n: int) -> Seq<char> {
    if n < 0 {
        seq!['-'] + dec_digits((-n) as nat)
    } else {
        dec_digits(n as nat)
    }
}

/// The value of a digit string, most significant digit first.
pub open spec fn digits_val(s: Seq<char>) -> int
    decreases s.len(),
{
    if s.len() == 0 {
        0
    } else {
        digits_val(s.drop_last()) * 10 + digit_val(s.last())
    }
}

pub open spec fn all_digits(s: Seq<char>) -> bool {
    forall|i: int| 0 <= i < s.len() ==> is_digit(#[trigger] s[i])
}

pub open spec fn pow10(k: nat) -> int
    decreases k,
{
    if k == 0 {
        1
    } else {
        10 * pow10((k - 1) as nat)
    }
}

/// A key field: an optional minus sign, then at most nineteen digits whose
/// value fits the key type.
pub open spec fn valid_id_field(s: Seq<char>) -> bool {
    if s.len() >= 1 && s[0] == '-' {
        let d = s.skip(1);
        1 <= d.len() <= 19 && all_digits(d) && digits_val(d) <= 0x8000000000000000
    } else {
        1 <= s.len() <= 19 && all_digits(s) && digits_val(s) <= 0x7fffffffffffffff
    }
}

/// The integer a valid key field denotes.
pub open spec fn id_field_val(s: Seq<char>) -> int {
    if s.len() >= 1 && s[0] == '-' {
        -digits_val(s.skip(1))
    } else {
        digits_val(s)
    }
}

proof fn lemma_pow10_values()
    ensures
        pow10(18) == 0x0de0b6b3a7640000,
        pow10(19) == 0x8ac7230489e80000,
{
    assert(pow10(0) == 1);
    assert(pow10(1) == 10);
    assert(pow10(2) == 100);
    assert(pow10(3) == 1000);
    assert(pow10(4) == 10000);
    assert(pow10(5) == 100000);
    assert(pow10(6) == 1000000);
    assert(pow10(7) == 10000000);
    assert(pow10(8) == 100000000);
    assert(pow10(9) == 1000000000);
    assert(pow10(10) == 10000000000);
    assert(pow10(11) == 100000000000);
    assert(pow10(12) == 1000000000000);
    assert(pow10(13) == 10000000000000);
    assert(pow10(14) == 100000000000000);
    assert(pow10(15) == 1000000000000000);
    assert(pow10(16) == 10000000000000000);
    assert(pow10(17) == 100000000000000000);
    assert(pow10(18) == 1000000000000000000);
    assert(pow10(19) == 10000000000000000000);
}

proof fn lemma_pow10_mono(a: nat, b: nat)
    requires
        a <= b,
    ensures
        0 < pow10(a) <= pow10(b),
    decreases b,
{
    if b > 0 {
        if a == b {
            lemma_pow10_mono((a - 1) as nat, (b - 1) as nat);
        } else {
            lemma_pow10_mono(a, (b - 1) as nat);
        }
    }
}

/// A digit string's value is nonnegative and below ten to its length.
proof fn lemma_digits_val_bound(s: Seq<char>)
    requires
        all_digits(s),
    ensures
        0 <= digits_val(s) < pow10(s.len()),
    decreases s.len(),
{
    if s.len() > 0 {
        assert(all_digits(s.drop_last())) by {
            assert(forall|i: int|
                0 <= i < s.len() - 1 ==> s.drop_last()[i] == #[trigger] s[i]);
        }
        lemma_digits_val_bound(s.drop_last());
        assert(is_digit(s.last()));
    }
}

/// The canonical rendering of `n` is made of digits and reads back as `n`.
proof fn lemma_dec_digits(n: nat)
    ensures
        all_digits(dec_digits(n)),
        digits_val(dec_digits(n)) == n,
        dec_digits(n).len() >= 1,
        is_digit(dec_digits(n)[0]),
    decreases n,
{
    if n < 10 {
        let s1 = seq![digit_char(n as int)];
        assert(dec_digits(n) == s1);
        assert(s1.drop_last() =~= Seq::<char>::empty());
        assert(digits_val(Seq::<char>::empty()) == 0);
        assert(s1.last() == digit_char(n as int));
        assert(digits_val(s1) == digit_val(digit_char(n as int)));
    } else {
        lemma_dec_digits(n / 10);
        let d = dec_digits(n / 10);
        let c = digit_char((n % 10) as int);
        assert(dec_digits(n) == d.push(c));
        assert(d.push(c).drop_last() == d);
        assert(d.push(c).last() == c);
        assert(digit_val(c) == n % 10);
        assert(digits_val(d.push(c)) == (n / 10) * 10 + (n % 10));
        assert(n == (n / 10) * 10 + (n % 10)) by (nonlinear_arith);
        assert(all_digits(d.push(c))) by {
            assert(forall|i: int| 0 <= i < d.len() ==> d.push(c)[i] == #[trigger] d[i]);
        }
        assert(d.push(c)[0] == d[0]);
    }
}

/// A number below ten to `k` renders in at most `k` digits.
proof fn lemma_dec_digits_len(n: nat, k: nat)
    requires
        k >= 1,
        n < pow10(k),
    ensures
        dec_digits(n).len() <= k,
    decreases n,
{
    if n < 10 {
    } else {
        if k == 1 {
            assert(pow10(0) == 1);
            assert(pow10(1) == 10);
            assert(false);
        }
        assert(pow10(k) == 10 * pow10((k - 1) as nat));
        assert(n / 10 < pow10((k - 1) as nat)) by (nonlinear_arith)
            requires
                n < 10 * pow10((k - 1) as nat),
                n >= 10,
        ;
        lemma_dec_digits_len(n / 10, (k - 1) as nat);
    }
}

/// The rendering of a key is a valid key field and reads back as the key.
proof fn lemma_dec_int_valid(n: int)
    requires
        -0x8000000000000000 <= n <= 0x7fffffffffffffff,
    ensures
        valid_id_field(dec_int(n)),
        id_field_val(dec_int(n)) == n,
    decreases 0int,
{
    lemma_pow10_values();
    if n < 0 {
        let m = (-n) as nat;
        lemma_dec_digits(m);
        lemma_dec_digits_len(m, 19);
        let s = seq!['-'] + dec_digits(m);
        assert(s[0] == '-');
        assert(s.skip(1) =~= dec_digits(m));
    } else {
        let m = n as nat;
        lemma_dec_digits(m);
        lemma_dec_digits_len(m, 19);
        let s = dec_digits(m);
        assert(is_digit(s[0]));
        assert(s[0] != '-');
    }
}

// ---------------------------------------------------------------------------
// Splitting on a separator character.
// ---------------------------------------------------------------------------

/// `s` is free of the separator character.
pub open spec fn no_sep(s: Seq<char>, sep: char) -> bool {
    forall|i: int| 0 <= i < s.len() ==> #[trigger] s[i] != sep
}

/// Index of the first occurrence of `sep` in `s`, or `-1`.
pub open spec fn find_idx(s: Seq<char>, sep: char) -> int
    decreases s.len(),
{
    if s.len() == 0 {
        -1
    } else if s[0] == sep {
        0
    } else {
        let r = find_idx(s.drop_first(), sep);
        if r < 0 || r + 1 >= s.len() {
            -1
        } else {
            r + 1
        }
    }
}

/// The segments of `s` between occurrences of `sep`. A trailing separator
/// closes the last segment; a trailing unterminated segment still counts.
pub open spec fn split_on(s: Seq<char>, sep: char) -> Seq<Seq<char>>
    decreases s.len(),
{
    if s.len() == 0 {
        seq![]
    } else {
        let i = find_idx(s, sep);
        if i < 0 {
            seq![s]
        } else {
            seq![s.take(i)] + split_on(s.skip(i + 1), sep)
        }
    }
}

/// What `find_idx` returns: the first occurrence, if any.
proof fn lemma_find_idx(s: Seq<char>, sep: char)
    ensures
        find_idx(s, sep) == -1 ==> forall|i: int| 0 <= i < s.len() ==> #[trigger] s[i] != sep,
        find_idx(s, sep) >= 0 ==> {
            &&& find_idx(s, sep) < s.len()
            &&& s[find_idx(s, sep)] == sep
            &&& forall|j: int| 0 <= j < find_idx(s, sep) ==> #[trigger] s[j] != sep
        },
    decreases s.len(),
{
    if s.len() > 0 && s[0] != sep {
        let t = s.drop_first();
        lemma_find_idx(t, sep);
        let r = find_idx(t, sep);
        if r < 0 {
            assert forall|i: int| 0 <= i < s.len() implies #[trigger] s[i] != sep by {
                if i > 0 {
                    assert(t[i - 1] == s[i]);
                }
            }
        } else {
            assert(s[r + 1] == t[r]);
            assert(find_idx(s, sep) == r + 1);
            assert forall|j: int| 0 <= j < r + 1 implies #[trigger] s[j] != sep by {
                if j > 0 {
                    assert(t[j - 1] == s[j]);
                }
            }
        }
    }
}

/// Splitting distributes over concatenation when every segment of the first
/// part is closed by a separator.
proof fn lemma_split_concat(a: Seq<char>, b: Seq<char>, sep: char)
    requires
        a.len() == 0 || a.last() == sep,
    ensures
        split_on(a + b, sep) == split_on(a, sep) + split_on(b, sep),
    decreases a.len(),
{
    if a.len() == 0 {
        assert(a + b =~= b);
        assert(split_on(a, sep) + split_on(b, sep) =~= split_on(b, sep));
    } else {
        lemma_find_idx(a, sep);
        lemma_find_idx(a + b, sep);
        let i = find_idx(a, sep);
        assert(a[a.len() - 1] == sep);
        assert(i >= 0);
        let r = find_idx(a + b, sep);
        assert((a + b)[i] == a[i]);
        assert(r >= 0);
        if r < i {
            assert((a + b)[r] == a[r]);
            assert(false);
        }
        if r > i {
            assert(false);
        }
        assert(r == i);
        assert((a + b).take(i) =~= a.take(i));
        assert((a + b).skip(i + 1) =~= a.skip(i + 1) + b);
        if a.skip(i + 1).len() > 0 {
            assert(a.skip(i + 1).last() == a.last());
        }
        lemma_split_concat(a.skip(i + 1), b, sep);
        assert(split_on(a + b, sep) == seq![a.take(i)] + (split_on(a.skip(i + 1), sep)
            + split_on(b, sep)));
        assert(seq![a.take(i)] + (split_on(a.skip(i + 1), sep) + split_on(b, sep)) =~= (seq![
            a.take(i)] + split_on(a.skip(i + 1), sep)) + split_on(b, sep));
    }
}

/// A separator-free text closed by one separator is exactly one segment.
proof fn lemma_split_single(x: Seq<char>, sep: char)
    requires
        no_sep(x, sep),
    ensures
        split_on(x + seq![sep], sep) == seq![x],
        x.len() > 0 ==> split_on(x, sep) == seq![x],
    decreases 0int,
{
    let s = x + seq![sep];
    lemma_find_idx(s, sep);
    assert(s[x.len() as int] == sep);
    assert(forall|j: int| 0 <= j < x.len() ==> #[trigger] s[j] == x[j]);
    let i = find_idx(s, sep);
    assert(i >= 0);
    assert(i == x.len());
    assert(s.take(i) =~= x);
    assert(s.skip(i + 1) =~= Seq::<char>::empty());
    assert(split_on(Seq::<char>::empty(), sep) == Seq::<Seq<char>>::empty());
    assert(split_on(s, sep) =~~= seq![x]);
    if x.len() > 0 {
        lemma_find_idx(x, sep);
        assert(find_idx(x, sep) == -1);
        assert(split_on(x, sep) == seq![x]);
    }
}

/// No segment produced by a split contains the separator.
proof fn lemma_split_clean(s: Seq<char>, sep: char)
    ensures
        forall|t: int|
            0 <= t < split_on(s, sep).len() ==> no_sep(#[trigger] split_on(s, sep)[t], sep),
    decreases s.len(),
{
    if s.len() > 0 {
        lemma_find_idx(s, sep);
        let i = find_idx(s, sep);
        if i < 0 {
        } else {
            lemma_split_clean(s.skip(i + 1), sep);
            assert(no_sep(s.take(i), sep)) by {
                assert(forall|j: int| 0 <= j < i ==> s.take(i)[j] == #[trigger] s[j]);
            }
            assert(forall|t: int|
                0 <= t < split_on(s.skip(i + 1), sep).len() ==> #[trigger] split_on(s, sep)[t + 1]
                    == split_on(s.skip(i + 1), sep)[t]);
            assert forall|t: int|
                0 <= t < split_on(s, sep).len() implies no_sep(
                #[trigger] split_on(s, sep)[t],
                sep,
            ) by {
                if t > 0 {
                    assert(split_on(s, sep)[t] == split_on(s.skip(i + 1), sep)[t - 1]);
                }
            }
        }
    }
}


// ---------------------------------------------------------------------------
// Rows: rendering records to lines and parsing lines back.
// ---------------------------------------------------------------------------

/// What a replayed log row carries: the key, status and timestamp of the
/// original record, with no rating and no tags.
pub open spec fn log_view(r: RecordView) -> RecordView {
    RecordView {
        subject_id: r.subject_id,
        status: r.status,
        rating: None,
        tags: None,
        marked_at: r.marked_at,
    }
}

/// A field that can sit in a row without breaking the format.
pub open spec fn field_clean(s: Seq<char>) -> bool {
    no_sep(s, ',') && no_sep(s, '\n')
}

/// A record the log accepts: a recognized status and a nonempty timestamp
/// free of separators, under a key that fits the key type.
pub open spec fn valid_log_entry(r: RecordView) -> bool {
    &&& valid_status(r.status)
    &&& r.marked_at.len() > 0
    &&& field_clean(r.marked_at)
    &&& -0x8000000000000000 <= r.subject_id <= 0x7fffffffffffffff
}

/// One data row, without its terminating newline.
pub open spec fn row_body(r: RecordView) -> Seq<char> {
    dec_int(r.subject_id) + seq![','] + r.status + seq![','] + r.marked_at
}

/// One data row, newline-terminated.
pub open spec fn render_entry(r: RecordView) -> Seq<char> {
    row_body(r) + seq!['\n']
}

/// The rows of a sequence of records, in order.
pub open spec fn render_entries(rs: Seq<RecordView>) -> Seq<char>
    decreases rs.len(),
{
    if rs.len() == 0 {
        Seq::empty()
    } else {
        render_entries(rs.drop_last()) + render_entry(rs.last())
    }
}

/// The header row's text.
pub open spec fn header_text() -> Seq<char> {
    "subject_id,status,timestamp"@
}

/// The header row, newline-terminated.
pub open spec fn header_line() -> Seq<char> {
    header_text() + seq!['\n']
}

/// What one data line means: exactly three comma-separated fields — a key,
/// a recognized status and a nonempty timestamp — or nothing.
pub open spec fn parse_row(line: Seq<char>) -> Option<RecordView> {
    let fs = split_on(line, ',');
    if fs.len() == 3 && valid_id_field(fs[0]) && valid_status(fs[1]) && fs[2].len() > 0 {
        Some(
            RecordView {
                subject_id: id_field_val(fs[0]),
                status: fs[1],
                rating: None,
                tags: None,
                marked_at: fs[2],
            },
        )
    } else {
        None
    }
}

/// The lines of a file past its first (header) line.
pub open spec fn data_lines(c: Seq<char>) -> Seq<Seq<char>> {
    let ls = split_on(c, '\n');
    if ls.len() == 0 {
        Seq::empty()
    } else {
        ls.drop_first()
    }
}

/// The records of the lines that parse; malformed lines contribute nothing.
pub open spec fn parsed_records(ls: Seq<Seq<char>>) -> Seq<RecordView>
    decreases ls.len(),
{
    if ls.len() == 0 {
        Seq::empty()
    } else {
        parsed_records(ls.drop_last()) + match parse_row(ls.last()) {
            Some(r) => seq![r],
            None => Seq::empty(),
        }
    }
}

/// How many lines do not parse.
pub open spec fn skipped_count(ls: Seq<Seq<char>>) -> nat
    decreases ls.len(),
{
    if ls.len() == 0 {
        0
    } else {
        skipped_count(ls.drop_last()) + if parse_row(ls.last()) is Some {
            0nat
        } else {
            1nat
        }
    }
}

/// The digit character for a digit value, as a string slice.
fn digit_str(d: u8) -> (r: &'static str)
    requires
        d < 10,
    ensures
        r@ == seq![digit_char(d as int)],
{
    proof {
        reveal_strlit("0");
        reveal_strlit("1");
        reveal_strlit("2");
        reveal_strlit("3");
        reveal_strlit("4");
        reveal_strlit("5");
        reveal_strlit("6");
        reveal_strlit("7");
        reveal_strlit("8");
        reveal_strlit("9");
        assert("0"@ =~= seq!['0']);
        assert("1"@ =~= seq!['1']);
        assert("2"@ =~= seq!['2']);
        assert("3"@ =~= seq!['3']);
        assert("4"@ =~= seq!['4']);
        assert("5"@ =~= seq!['5']);
        assert("6"@ =~= seq!['6']);
        assert("7"@ =~= seq!['7']);
        assert("8"@ =~= seq!['8']);
        assert("9"@ =~= seq!['9']);
    }
    if d == 0 {
        "0"
    } else if d == 1 {
        "1"
    } else if d == 2 {
        "2"
    } else if d == 3 {
        "3"
    } else if d == 4 {
        "4"
    } else if d == 5 {
        "5"
    } else if d == 6 {
        "6"
    } else if d == 7 {
        "7"
    } else if d == 8 {
        "8"
    } else {
        "9"
    }
}

/// The digit value of a character, if it is one.
fn digit_of(c: char) -> (r: Option<u8>)
    ensures
        match r {
            Some(d) => d < 10 && digit_val(c) == d as int,
            None => digit_val(c) < 0,
        },
{
    if c == '0' {
        Some(0)
    } else if c == '1' {
        Some(1)
    } else if c == '2' {
        Some(2)
    } else if c == '3' {
        Some(3)
    } else if c == '4' {
        Some(4)
    } else if c == '5' {
        Some(5)
    } else if c == '6' {
        Some(6)
    } else if c == '7' {
        Some(7)
    } else if c == '8' {
        Some(8)
    } else if c == '9' {
        Some(9)
    } else {
        None
    }
}

/// Appends the canonical decimal rendering of `n`.
fn render_u64(n: u64, out: &mut String)
    ensures
        final(out)@ == old(out)@ + dec_digits(n as nat),
    decreases n,
{
    if n < 10 {
        out.append(digit_str(n as u8));
    } else {
        render_u64(n / 10, out);
        out.append(digit_str((n % 10) as u8));
        proof {
            assert((n / 10) as nat == n as nat / 10);
            assert((n % 10) as int == n as nat % 10);
            assert(old(out)@ + dec_digits((n / 10) as nat) + seq![
                digit_char((n as nat % 10) as int)] =~= old(out)@ + dec_digits(n as nat));
        }
    }
}

/// Appends the canonical decimal rendering of `n`, sign included.
fn render_i64(n: i64, out: &mut String)
    ensures
        final(out)@ == old(out)@ + dec_int(n as int),
{
    if n >= 0 {
        render_u64(n as u64, out);
    } else {
        out.append("-");
        let mag: u64 = ((-(n + 1)) as u64) + 1;
        render_u64(mag, out);
        proof {
            reveal_strlit("-");
            assert("-"@ =~= seq!['-']);
            assert(mag as nat == (-(n as int)) as nat);
            assert(old(out)@ + "-"@ + dec_digits(mag as nat) =~= old(out)@ + dec_int(n as int));
        }
    }
}

/// Appends one newline-terminated data row for this record.
fn render_row(d: &UserAnimeData, out: &mut String)
    ensures
        final(out)@ == old(out)@ + render_entry(d@),
{
    render_i64(d.subject_id, out);
    out.append(",");
    out.append(d.status.as_str());
    out.append(",");
    out.append(d.marked_at.as_str());
    out.append("\n");
    proof {
        reveal_strlit(",");
        reveal_strlit("\n");
        assert(","@ =~= seq![',']);
        assert("\n"@ =~= seq!['\n']);
        assert(old(out)@ + dec_int(d.subject_id as int) + ","@ + d.status@ + ","@ + d.marked_at@
            + "\n"@ =~= old(out)@ + render_entry(d@));
    }
}

/// Splits `s` at every occurrence of `sep`, mirroring `split_on`.
fn split_str<'a>(s: &'a str, sep: char) -> (v: Vec<&'a str>)
    ensures
        v@.len() == split_on(s@, sep).len(),
        forall|t: int| 0 <= t < v@.len() ==> (#[trigger] v@[t])@ == split_on(s@, sep)[t],
{
    let len = s.unicode_len();
    let mut v: Vec<&'a str> = Vec::new();
    let mut start: usize = 0;
    let mut i: usize = 0;
    while i < len
        invariant
            len == s@.len(),
            0 <= start <= i <= len,
            start == 0 || s@[start - 1] == sep,
            no_sep(s@.subrange(start as int, i as int), sep),
            v@.len() == split_on(s@.take(start as int), sep).len(),
            forall|t: int|
                0 <= t < v@.len() ==> (#[trigger] v@[t])@ == split_on(s@.take(start as int), sep)[t],
        decreases len - i,
    {
        let c = s.get_char(i);
        if c == sep {
            let piece = s.substring_char(start, i);
            v.push(piece);
            proof {
                let a = s@.take(start as int);
                let x = s@.subrange(start as int, i as int);
                assert(s@.take(i + 1) =~= a + (x + seq![sep]));
                lemma_split_concat(a, x + seq![sep], sep);
                lemma_split_single(x, sep);
                assert(piece@ == x);
            }
            start = i + 1;
            proof {
                assert(s@.subrange(start as int, i + 1) =~= Seq::<char>::empty());
            }
        } else {
            proof {
                assert(s@.subrange(start as int, i + 1) =~= s@.subrange(start as int, i as int).push(
                    s@[i as int],
                ));
            }
        }
        i += 1;
    }
    if start < len {
        let piece = s.substring_char(start, len);
        v.push(piece);
        proof {
            let a = s@.take(start as int);
            let x = s@.subrange(start as int, len as int);
            assert(s@ =~= a + x);
            lemma_split_concat(a, x, sep);
            lemma_split_single(x, sep);
            assert(piece@ == x);
        }
    } else {
        proof {
            assert(s@.take(start as int) =~= s@);
        }
    }
    v
}

/// Parses a key field; accepts liberal digit strings within the key range.
fn parse_id(s: &str) -> (r: Option<i64>)
    ensures
        match r {
            Some(v) => valid_id_field(s@) && v as int == id_field_val(s@),
            None => !valid_id_field(s@),
        },
{
    let len = s.unicode_len();
    if len == 0 {
        return None;
    }
    let neg = s.get_char(0) == '-';
    let start: usize = if neg {
        1
    } else {
        0
    };
    if len - start < 1 || len - start > 19 {
        return None;
    }
    let mut acc: u64 = 0;
    let mut i: usize = start;
    while i < len
        invariant
            len == s@.len(),
            start <= i <= len,
            1 <= len - start <= 19,
            neg ==> len >= 1 && s@[0] == '-',
            !neg ==> len >= 1 && s@[0] != '-',
            start == if neg {
                1int
            } else {
                0int
            },
            all_digits(s@.subrange(start as int, i as int)),
            acc == digits_val(s@.subrange(start as int, i as int)),
            acc < pow10((i - start) as nat),
        decreases len - i,
    {
        let c = s.get_char(i);
        match digit_of(c) {
            None => {
                proof {
                    if neg {
                        assert(s@.skip(1)[i - 1] == s@[i as int]);
                        assert(!all_digits(s@.skip(1)));
                    } else {
                        assert(!all_digits(s@));
                    }
                }
                return None;
            },
            Some(d) => {
                proof {
                    lemma_pow10_mono((i - start + 1) as nat, 19);
                    lemma_pow10_values();
                    assert(acc * 10 + d < pow10((i - start + 1) as nat));
                    assert(s@.subrange(start as int, i + 1).drop_last() =~= s@.subrange(
                        start as int,
                        i as int,
                    ));
                    assert(s@.subrange(start as int, i + 1).last() == s@[i as int]);
                }
                acc = acc * 10 + (d as u64);
            },
        }
        i += 1;
    }
    proof {
        if neg {
            assert(s@.subrange(start as int, len as int) =~= s@.skip(1));
        } else {
            assert(s@.subrange(start as int, len as int) =~= s@);
        }
    }
    if neg {
        if acc > 0x8000000000000000u64 {
            return None;
        }
        if acc == 0x8000000000000000u64 {
            Some(i64::MIN)
        } else {
            Some(-(acc as i64))
        }
    } else {
        if acc > 0x7fffffffffffffffu64 {
            return None;
        }
        Some(acc as i64)
    }
}

/// Whether the string can sit in a row field: no separator characters.
fn is_clean_field(s: &str) -> (r: bool)
    ensures
        r == field_clean(s@),
{
    let len = s.unicode_len();
    let mut i: usize = 0;
    while i < len
        invariant
            len == s@.len(),
            0 <= i <= len,
            forall|j: int| 0 <= j < i ==> #[trigger] s@[j] != ',' && s@[j] != '\n',
        decreases len - i,
    {
        let c = s.get_char(i);
        if c == ',' || c == '\n' {
            return false;
        }
        i += 1;
    }
    true
}

/// Parses one data line into a record, or nothing if it is malformed.
fn parse_line(line: &str) -> (r: Option<UserAnimeData>)
    ensures
        match r {
            Some(d) => parse_row(line@) == Some(d@),
            None => parse_row(line@) is None,
        },
{
    let fields = split_str(line, ',');
    if fields.len() != 3 {
        return None;
    }
    let id = match parse_id(fields[0]) {
        Some(v) => v,
        None => {
            return None;
        },
    };
    if !crate::models::is_valid_status(fields[1]) {
        return None;
    }
    if fields[2].unicode_len() == 0 {
        return None;
    }
    let d = UserAnimeData {
        subject_id: id,
        status: String::from_str(fields[1]),
        rating: None,
        tags: None,
        marked_at: String::from_str(fields[2]),
    };
    Some(d)
}

/// The whole-file contents of a freshly truncated log: just the header row.
pub fn clear_content() -> (r: String)
    ensures
        r@ == header_line(),
{
    let mut out = String::new();
    out.append("subject_id,status,timestamp\n");
    proof {
        reveal_strlit("subject_id,status,timestamp\n");
        reveal_strlit("subject_id,status,timestamp");
        assert(out@ =~= header_line());
    }
    out
}

/// Replays the whole file: every data row that parses becomes a record, in
/// file order, and the count of malformed rows that were skipped is
/// returned beside them.
pub fn load_all(content: &str) -> (r: (Vec<UserAnimeData>, usize))
    ensures
        crate::database::views_of(r.0@) == parsed_records(data_lines(content@)),
        r.1 == skipped_count(data_lines(content@)),
{
    let lines = split_str(content, '\n');
    let mut out: Vec<UserAnimeData> = Vec::new();
    let mut skipped: usize = 0;
    let n = lines.len();
    if n == 0 {
        proof {
            assert(data_lines(content@) =~= Seq::<Seq<char>>::empty());
            assert(crate::database::views_of(out@) =~= parsed_records(data_lines(content@)));
        }
        return (out, 0);
    }
    let ghost dl = data_lines(content@);
    proof {
        assert(dl =~= split_on(content@, '\n').drop_first());
        assert(dl.len() == n - 1);
        assert(forall|t: int| 0 <= t < dl.len() ==> #[trigger] dl[t] == split_on(content@, '\n')[t + 1]);
    }
    let mut j: usize = 1;
    while j < n
        invariant
            n == lines@.len(),
            1 <= j <= n,
            n == split_on(content@, '\n').len(),
            forall|t: int|
                0 <= t < n ==> (#[trigger] lines@[t])@ == split_on(content@, '\n')[t],
            dl == data_lines(content@),
            dl.len() == n - 1,
            forall|t: int| 0 <= t < dl.len() ==> #[trigger] dl[t] == split_on(content@, '\n')[t + 1],
            crate::database::views_of(out@) == parsed_records(dl.take(j - 1)),
            skipped == skipped_count(dl.take(j - 1)),
            skipped <= j - 1,
        decreases n - j,
    {
        proof {
            assert(dl.take(j as int).drop_last() =~= dl.take(j - 1));
            assert(dl.take(j as int).last() == dl[j - 1]);
            assert(dl[j - 1] == (lines@[j as int])@);
        }
        match parse_line(lines[j]) {
            Some(d) => {
                out.push(d);
                proof {
                    assert(crate::database::views_of(out@) =~= parsed_records(dl.take(j as int)));
                }
            },
            None => {
                skipped += 1;
            },
        }
        j += 1;
    }
    proof {
        assert(dl.take(n - 1) =~= dl);
    }
    (out, skipped)
}

/// What a file looks like just before rows are appended: a missing or empty
/// file becomes the header row; other contents are kept, gaining a closing
/// newline if the last row lacked one.
pub open spec fn append_base(existing: Option<Seq<char>>) -> Seq<char> {
    match existing {
        None => header_line(),
        Some(c) => if c.len() == 0 {
            header_line()
        } else if c.last() != '\n' {
            c + seq!['\n']
        } else {
            c
        },
    }
}

/// Header-aware append: the new whole-file contents are the old ones (or a
/// fresh header for a missing or empty file) followed by one row per record,
/// in order. A record with an unrecognized status, an empty timestamp or a
/// timestamp holding a separator is rejected, and nothing is produced.
pub fn append_rows(existing: Option<&str>, entries: &Vec<UserAnimeData>) -> (r: Result<
    String,
    StoreError,
>)
    ensures
        r matches Ok(out) ==> {
            &&& forall|i: int|
                0 <= i < entries@.len() ==> valid_log_entry((#[trigger] entries@[i])@)
            &&& out@ == append_base(
                match existing {
                    Some(c) => Some(c@),
                    None => None,
                },
            ) + render_entries(crate::database::views_of(entries@))
        },
        r is Err ==> exists|i: int|
            0 <= i < entries@.len() && !valid_log_entry((#[trigger] entries@[i])@),
{
    let n = entries.len();
    let mut i: usize = 0;
    while i < n
        invariant
            n == entries@.len(),
            0 <= i <= n,
            forall|j: int| 0 <= j < i ==> valid_log_entry((#[trigger] entries@[j])@),
        decreases n - i,
    {
        let e = &entries[i];
        if !e.is_valid() || e.marked_at.as_str().is_empty() || !is_clean_field(
            e.marked_at.as_str(),
        ) {
            return Err(StoreError::Validation(String::from_str("record cannot be logged")));
        }
        i += 1;
    }
    let ghost base = append_base(
        match existing {
            Some(c) => Some(c@),
            None => None,
        },
    );
    let mut out: String;
    match existing {
        None => {
            out = clear_content();
        },
        Some(c) => {
            let clen = c.unicode_len();
            if clen == 0 {
                out = clear_content();
            } else {
                out = String::new();
                out.append(c);
                if c.get_char(clen - 1) != '\n' {
                    out.append("\n");
                    proof {
                        reveal_strlit("\n");
                        assert("\n"@ =~= seq!['\n']);
                        assert(out@ =~= base);
                    }
                }
            }
        },
    }
    proof {
        assert(out@ == base);
    }
    let ghost vs = crate::database::views_of(entries@);
    let mut k: usize = 0;
    while k < n
        invariant
            n == entries@.len(),
            0 <= k <= n,
            vs == crate::database::views_of(entries@),
            out@ == base + render_entries(vs.take(k as int)),
        decreases n - k,
    {
        render_row(&entries[k], &mut out);
        proof {
            assert(vs.take(k + 1).drop_last() =~= vs.take(k as int));
            assert(vs.take(k + 1).last() == (entries@[k as int])@);
            assert(base + render_entries(vs.take(k as int)) + render_entry((entries@[k as int])@)
                =~= base + render_entries(vs.take(k + 1)));
        }
        k += 1;
    }
    proof {
        assert(vs.take(n as int) =~= vs);
    }
    Ok(out)
}

// ---------------------------------------------------------------------------
// Deleting the most recent row for a key.
// ---------------------------------------------------------------------------

/// Index of the last record of `rows` under key `k`, or `-1`.
pub open spec fn last_match_idx(rows: Seq<RecordView>, k: int) -> int
    decreases rows.len(),
{
    if rows.len() == 0 {
        -1
    } else if rows.last().subject_id == k {
        rows.len() - 1
    } else {
        last_match_idx(rows.drop_last(), k)
    }
}

/// `rows` with its last record under key `k` removed, if there is one.
pub open spec fn remove_last_match(rows: Seq<RecordView>, k: int) -> Seq<RecordView> {
    let i = last_match_idx(rows, k);
    if i < 0 {
        rows
    } else {
        rows.take(i) + rows.skip(i + 1)
    }
}

/// What `last_match_idx` returns: the last matching index, if any.
pub proof fn lemma_last_match_idx(rows: Seq<RecordView>, k: int)
    ensures
        last_match_idx(rows, k) < 0 ==> forall|j: int|
            0 <= j < rows.len() ==> (#[trigger] rows[j]).subject_id != k,
        last_match_idx(rows, k) >= 0 ==> {
            &&& last_match_idx(rows, k) < rows.len()
            &&& rows[last_match_idx(rows, k)].subject_id == k
            &&& forall|j: int|
                last_match_idx(rows, k) < j < rows.len() ==> (#[trigger] rows[j]).subject_id != k
        },
    decreases rows.len(),
{
    if rows.len() > 0 && rows.last().subject_id != k {
        lemma_last_match_idx(rows.drop_last(), k);
        assert(forall|j: int|
            0 <= j < rows.len() - 1 ==> #[trigger] rows[j] == rows.drop_last()[j]);
    }
}

/// Rewrites the file without the most recent row for this key: the result is
/// the header followed by every parsed row but that one, in order. Nothing
/// is produced when no row matches — the file is to be left untouched.
/// Malformed rows are dropped by the rewrite, as the read-all/filter/rewrite
/// cycle implies.
pub fn delete_last_match(content: &str, subject_id: i64) -> (r: Option<String>)
    ensures
        ({
            let rows = parsed_records(data_lines(content@));
            match r {
                Some(out) => last_match_idx(rows, subject_id as int) >= 0 && out@ == header_line()
                    + render_entries(remove_last_match(rows, subject_id as int)),
                None => last_match_idx(rows, subject_id as int) < 0,
            }
        }),
{
    let (rows, _skipped) = load_all(content);
    let ghost vs = crate::database::views_of(rows@);
    let n = rows.len();
    let mut found = false;
    let mut idx: usize = 0;
    let mut t: usize = 0;
    while t < n
        invariant
            n == rows@.len(),
            0 <= t <= n,
            vs == crate::database::views_of(rows@),
            !found ==> forall|j: int| 0 <= j < t ==> (#[trigger] vs[j]).subject_id != subject_id,
            found ==> {
                &&& 0 <= idx < t
                &&& vs[idx as int].subject_id == subject_id
                &&& forall|j: int| idx < j < t ==> (#[trigger] vs[j]).subject_id != subject_id
            },
        decreases n - t,
    {
        if rows[t].subject_id == subject_id {
            found = true;
            idx = t;
        }
        t += 1;
    }
    proof {
        lemma_last_match_idx(vs, subject_id as int);
    }
    if !found {
        return None;
    }
    let ghost li = last_match_idx(vs, subject_id as int);
    proof {
        assert(li == idx as int);
    }
    let mut out = clear_content();
    let ghost kept = remove_last_match(vs, subject_id as int);
    proof {
        assert(kept == vs.take(li) + vs.skip(li + 1));
        assert(kept.len() == vs.len() - 1);
    }
    let mut u: usize = 0;
    while u < n
        invariant
            n == rows@.len(),
            0 <= u <= n,
            vs == crate::database::views_of(rows@),
            0 <= idx < n,
            li == idx as int,
            kept == vs.take(li) + vs.skip(li + 1),
            kept.len() == n - 1,
            forall|j: int| 0 <= j < li ==> #[trigger] kept[j] == vs[j],
            forall|j: int| li <= j < kept.len() ==> #[trigger] kept[j] == vs[j + 1],
            out@ == header_line() + render_entries(
                kept.take(if u <= idx { u as int } else { u - 1 }),
            ),
        decreases n - u,
    {
        if u != idx {
            let ghost w: int = if u < idx { u as int } else { u - 1 };
            proof {
                assert(kept[w] == vs[u as int]);
                assert(kept.take(w + 1).drop_last() =~= kept.take(w));
                assert(kept.take(w + 1).last() == kept[w]);
                assert(header_line() + render_entries(kept.take(w)) + render_entry(vs[u as int])
                    =~= header_line() + render_entries(kept.take(w + 1)));
            }
            render_row(&rows[u], &mut out);
        }
        u += 1;
    }
    proof {
        assert(kept.take(n - 1) =~= kept);
    }
    Some(out)
}


// ---------------------------------------------------------------------------
// Round-trip laws: what a reload sees after append, clear and delete.
// ---------------------------------------------------------------------------

/// The bodies of the rows a sequence of records renders to.
pub open spec fn row_bodies(rs: Seq<RecordView>) -> Seq<Seq<char>> {
    rs.map_values(|r: RecordView| row_body(r))
}

/// The replayed views of a sequence of records.
pub open spec fn log_views(rs: Seq<RecordView>) -> Seq<RecordView> {
    rs.map_values(|r: RecordView| log_view(r))
}

/// Rendering rows distributes over concatenation of record sequences.
pub proof fn lemma_render_entries_concat(a: Seq<RecordView>, b: Seq<RecordView>)
    ensures
        render_entries(a + b) == render_entries(a) + render_entries(b),
    decreases b.len(),
{
    if b.len() == 0 {
        assert(a + b =~= a);
        assert(render_entries(a) + render_entries(b) =~= render_entries(a));
    } else {
        assert((a + b).drop_last() =~= a + b.drop_last());
        assert((a + b).last() == b.last());
        lemma_render_entries_concat(a, b.drop_last());
        assert(render_entries(a) + render_entries(b.drop_last()) + render_entry(b.last()) =~=
            render_entries(a) + render_entries(b));
    }
}

/// A nonempty rendering ends with a newline.
proof fn lemma_render_terminated(rs: Seq<RecordView>)
    ensures
        rs.len() > 0 ==> render_entries(rs).len() > 0 && render_entries(rs).last() == '\n',
{
    if rs.len() > 0 {
        assert(render_entry(rs.last()).last() == '\n');
        assert(render_entries(rs).last() == render_entry(rs.last()).last());
    }
}

/// A status value is nonempty and free of separators.
proof fn lemma_status_clean(st: Seq<char>)
    requires
        valid_status(st),
    ensures
        no_sep(st, ','),
        no_sep(st, '\n'),
        st.len() > 0,
{
    reveal_strlit("watched");
    reveal_strlit("wishlist");
    reveal_strlit("skipped");
}

/// A rendered key is nonempty, free of separators, and starts with a digit
/// or a minus sign.
proof fn lemma_dec_clean(n: int)
    ensures
        no_sep(dec_int(n), ','),
        no_sep(dec_int(n), '\n'),
        dec_int(n).len() > 0,
        dec_int(n)[0] == '-' || is_digit(dec_int(n)[0]),
{
    if n < 0 {
        let m = (-n) as nat;
        lemma_dec_digits(m);
        let s = seq!['-'] + dec_digits(m);
        assert(dec_int(n) == s);
        assert forall|i: int| 0 <= i < s.len() implies #[trigger] s[i] != ',' && s[i] != '\n' by {
            if i > 0 {
                assert(s[i] == dec_digits(m)[i - 1]);
                assert(is_digit(dec_digits(m)[i - 1]));
            }
        }
        assert(s[0] == '-');
    } else {
        let m = n as nat;
        lemma_dec_digits(m);
        assert forall|i: int|
            0 <= i < dec_int(n).len() implies #[trigger] dec_int(n)[i] != ',' && dec_int(n)[i]
            != '\n' by {
            assert(is_digit(dec_digits(m)[i]));
        }
    }
}

/// A row body for a loggable record holds no newline and is nonempty.
proof fn lemma_row_body_clean(r: RecordView)
    requires
        valid_log_entry(r),
    ensures
        no_sep(row_body(r), '\n'),
        row_body(r).len() > 0,
        row_body(r)[0] == dec_int(r.subject_id)[0],
{
    lemma_dec_clean(r.subject_id);
    lemma_status_clean(r.status);
    let dec = dec_int(r.subject_id);
    let b = row_body(r);
    assert forall|i: int| 0 <= i < b.len() implies #[trigger] b[i] != '\n' by {
        let with_key = dec + seq![','];
        let with_status = with_key + r.status;
        let with_comma = with_status + seq![','];
        assert(b == with_comma + r.marked_at);
        if i < dec.len() {
            assert(b[i] == dec[i]);
        } else if i == dec.len() {
            assert(b[i] == ',');
        } else if i < with_status.len() {
            assert(b[i] == r.status[i - with_key.len()]);
        } else if i == with_status.len() {
            assert(b[i] == ',');
        } else {
            assert(b[i] == r.marked_at[i - with_comma.len()]);
        }
    }
    assert(b[0] == dec[0]);
}

/// Parsing a rendered row gives back exactly the record's replayed view.
pub proof fn lemma_parse_render_row(r: RecordView)
    requires
        valid_log_entry(r),
    ensures
        parse_row(row_body(r)) == Some(log_view(r)),
{
    let dec = dec_int(r.subject_id);
    lemma_dec_int_valid(r.subject_id);
    lemma_dec_clean(r.subject_id);
    lemma_status_clean(r.status);
    let rest1 = r.status + seq![','] + r.marked_at;
    let a1 = dec + seq![','];
    assert(row_body(r) =~= a1 + rest1);
    assert(a1.last() == ',');
    lemma_split_concat(a1, rest1, ',');
    lemma_split_single(dec, ',');
    assert(split_on(a1, ',') == seq![dec]);
    let a2 = r.status + seq![','];
    assert(rest1 =~= a2 + r.marked_at);
    assert(a2.last() == ',');
    lemma_split_concat(a2, r.marked_at, ',');
    lemma_split_single(r.status, ',');
    assert(split_on(a2, ',') == seq![r.status]);
    lemma_split_single(r.marked_at, ',');
    assert(split_on(r.marked_at, ',') == seq![r.marked_at]);
    let fs = split_on(row_body(r), ',');
    assert(fs =~~= seq![dec, r.status, r.marked_at]);
    assert(fs[0] == dec && fs[1] == r.status && fs[2] == r.marked_at);
    assert(parse_row(row_body(r)) == Some(log_view(r)));
}

/// The rendered rows split back into exactly the row bodies, in order.
proof fn lemma_split_render(rs: Seq<RecordView>)
    requires
        forall|i: int| 0 <= i < rs.len() ==> valid_log_entry(#[trigger] rs[i]),
    ensures
        split_on(render_entries(rs), '\n') == row_bodies(rs),
    decreases rs.len(),
{
    if rs.len() == 0 {
        assert(split_on(render_entries(rs), '\n') =~~= row_bodies(rs));
    } else {
        let dl = rs.drop_last();
        assert(forall|i: int| 0 <= i < dl.len() ==> #[trigger] dl[i] == rs[i]);
        lemma_split_render(dl);
        lemma_render_terminated(dl);
        let last = rs.last();
        lemma_row_body_clean(last);
        lemma_split_concat(render_entries(dl), render_entry(last), '\n');
        lemma_split_single(row_body(last), '\n');
        assert(render_entry(last) == row_body(last) + seq!['\n']);
        assert(split_on(render_entry(last), '\n') == seq![row_body(last)]);
        assert(split_on(render_entries(rs), '\n') =~~= row_bodies(rs));
    }
}

/// Parsing distributes over concatenation of line sequences.
proof fn lemma_parsed_concat(a: Seq<Seq<char>>, b: Seq<Seq<char>>)
    ensures
        parsed_records(a + b) == parsed_records(a) + parsed_records(b),
        skipped_count(a + b) == skipped_count(a) + skipped_count(b),
    decreases b.len(),
{
    if b.len() == 0 {
        assert(a + b =~= a);
        assert(parsed_records(a) + parsed_records(b) =~= parsed_records(a));
    } else {
        assert((a + b).drop_last() =~= a + b.drop_last());
        assert((a + b).last() == b.last());
        lemma_parsed_concat(a, b.drop_last());
        assert(parsed_records(a) + parsed_records(b.drop_last()) + match parse_row(b.last()) {
            Some(r) => seq![r],
            None => Seq::<RecordView>::empty(),
        } =~= parsed_records(a) + parsed_records(b));
    }
}

/// The row bodies of loggable records all parse, to their replayed views.
proof fn lemma_parsed_of_bodies(rs: Seq<RecordView>)
    requires
        forall|i: int| 0 <= i < rs.len() ==> valid_log_entry(#[trigger] rs[i]),
    ensures
        parsed_records(row_bodies(rs)) == log_views(rs),
        skipped_count(row_bodies(rs)) == 0,
    decreases rs.len(),
{
    if rs.len() == 0 {
        assert(parsed_records(row_bodies(rs)) =~= log_views(rs));
    } else {
        let dl = rs.drop_last();
        assert(forall|i: int| 0 <= i < dl.len() ==> #[trigger] dl[i] == rs[i]);
        lemma_parsed_of_bodies(dl);
        lemma_parse_render_row(rs.last());
        assert(row_bodies(rs).drop_last() =~= row_bodies(dl));
        assert(row_bodies(rs).last() == row_body(rs.last()));
        assert(parsed_records(row_bodies(dl)) + seq![log_view(rs.last())] =~= log_views(rs));
    }
}

/// The header text is nonempty, newline-free, and starts with a letter.
proof fn lemma_header_clean()
    ensures
        no_sep(header_text(), '\n'),
        header_text().len() > 0,
        header_text()[0] == 's',
{
    reveal_strlit("subject_id,status,timestamp");
}

/// Replaying a freshly rendered file yields exactly the records that were
/// rendered, with nothing skipped.
pub proof fn lemma_load_rendered(rs: Seq<RecordView>)
    requires
        forall|i: int| 0 <= i < rs.len() ==> valid_log_entry(#[trigger] rs[i]),
    ensures
        parsed_records(data_lines(header_line() + render_entries(rs))) == log_views(rs),
        skipped_count(data_lines(header_line() + render_entries(rs))) == 0,
{
    lemma_header_clean();
    assert(header_line().last() == '\n');
    lemma_split_concat(header_line(), render_entries(rs), '\n');
    lemma_split_single(header_text(), '\n');
    assert(split_on(header_line(), '\n') == seq![header_text()]);
    lemma_split_render(rs);
    let ls = split_on(header_line() + render_entries(rs), '\n');
    assert(ls == seq![header_text()] + row_bodies(rs));
    assert(ls.len() == 1 + rs.len());
    assert(data_lines(header_line() + render_entries(rs)) =~~= row_bodies(rs));
    lemma_parsed_of_bodies(rs);
}

/// Log append durability, seen through a reload: appending loggable records
/// to any newline-terminated contents and replaying the file yields exactly
/// the old records followed by the new ones, and skips nothing new.
pub proof fn lemma_load_after_append(base: Seq<char>, rs: Seq<RecordView>)
    requires
        base.len() > 0,
        base.last() == '\n',
        forall|i: int| 0 <= i < rs.len() ==> valid_log_entry(#[trigger] rs[i]),
    ensures
        parsed_records(data_lines(base + render_entries(rs))) == parsed_records(data_lines(base))
            + log_views(rs),
        skipped_count(data_lines(base + render_entries(rs))) == skipped_count(data_lines(base)),
{
    lemma_split_concat(base, render_entries(rs), '\n');
    lemma_split_render(rs);
    let lb = split_on(base, '\n');
    assert(lb.len() >= 1);
    let ls = split_on(base + render_entries(rs), '\n');
    assert(ls == lb + row_bodies(rs));
    assert(data_lines(base + render_entries(rs)) =~~= lb.drop_first() + row_bodies(rs));
    lemma_parsed_concat(lb.drop_first(), row_bodies(rs));
    lemma_parsed_of_bodies(rs);
    assert(data_lines(base) == lb.drop_first());
}

/// A rendered row never reads as the header row.
proof fn lemma_row_body_not_header(r: RecordView)
    requires
        valid_log_entry(r),
    ensures
        row_body(r) != header_text(),
{
    lemma_row_body_clean(r);
    lemma_dec_clean(r.subject_id);
    lemma_header_clean();
    if row_body(r) == header_text() {
        assert(row_body(r)[0] == 's');
        assert(dec_int(r.subject_id)[0] == 's');
        assert(digit_val('s') == -1);
        assert(false);
    }
}

/// Log header idempotence: a file created by one append and extended by
/// another holds the header exactly once, as its first line; no data row
/// ever equals the header.
pub proof fn lemma_header_exactly_once(a: Seq<RecordView>, b: Seq<RecordView>)
    requires
        forall|i: int| 0 <= i < a.len() ==> valid_log_entry(#[trigger] a[i]),
        forall|i: int| 0 <= i < b.len() ==> valid_log_entry(#[trigger] b[i]),
    ensures
        ({
            let ls = split_on(
                header_line() + render_entries(a) + render_entries(b),
                '\n',
            );
            &&& ls.len() == 1 + a.len() + b.len()
            &&& ls[0] == header_text()
            &&& forall|t: int| 1 <= t < ls.len() ==> ls[t] != header_text()
        }),
{
    lemma_render_entries_concat(a, b);
    let rs = a + b;
    assert(forall|i: int| 0 <= i < rs.len() ==> valid_log_entry(#[trigger] rs[i])) by {
        assert(forall|i: int|
            0 <= i < rs.len() ==> #[trigger] rs[i] == if i < a.len() {
                a[i]
            } else {
                b[i - a.len()]
            });
    }
    assert(header_line() + render_entries(a) + render_entries(b) =~= header_line()
        + render_entries(rs));
    lemma_header_clean();
    lemma_split_concat(header_line(), render_entries(rs), '\n');
    lemma_split_single(header_text(), '\n');
    lemma_split_render(rs);
    let ls = split_on(header_line() + render_entries(rs), '\n');
    assert(ls =~~= seq![header_text()] + row_bodies(rs));
    assert forall|t: int| 1 <= t < ls.len() implies ls[t] != header_text() by {
        assert(ls[t] == row_body(rs[t - 1]));
        lemma_row_body_not_header(rs[t - 1]);
    }
}

/// Every record a replay produces is itself loggable and already in
/// replayed form, so it can be rendered again faithfully.
pub proof fn lemma_parsed_records_valid(c: Seq<char>)
    ensures
        forall|t: int|
            0 <= t < parsed_records(data_lines(c)).len() ==> valid_log_entry(
                #[trigger] parsed_records(data_lines(c))[t],
            ) && parsed_records(data_lines(c))[t] == log_view(parsed_records(data_lines(c))[t]),
{
    lemma_split_clean(c, '\n');
    let ls = data_lines(c);
    assert(forall|t: int| 0 <= t < ls.len() ==> no_sep(#[trigger] ls[t], '\n')) by {
        if split_on(c, '\n').len() > 0 {
            assert(forall|t: int|
                0 <= t < ls.len() ==> #[trigger] ls[t] == split_on(c, '\n')[t + 1]);
        }
    }
    lemma_parsed_valid_lines(ls);
}

/// Records parsed from newline-free lines are loggable replayed views.
proof fn lemma_parsed_valid_lines(ls: Seq<Seq<char>>)
    requires
        forall|t: int| 0 <= t < ls.len() ==> no_sep(#[trigger] ls[t], '\n'),
    ensures
        forall|t: int|
            0 <= t < parsed_records(ls).len() ==> valid_log_entry(
                #[trigger] parsed_records(ls)[t],
            ) && parsed_records(ls)[t] == log_view(parsed_records(ls)[t]),
    decreases ls.len(),
{
    if ls.len() > 0 {
        let dl = ls.drop_last();
        assert(forall|t: int| 0 <= t < dl.len() ==> #[trigger] dl[t] == ls[t]);
        lemma_parsed_valid_lines(dl);
        let line = ls.last();
        match parse_row(line) {
            None => {
                assert(parsed_records(ls) =~= parsed_records(dl));
            },
            Some(r) => {
                lemma_split_clean(line, ',');
                lemma_split_preserves_no_sep(line, ',', '\n');
                let fs = split_on(line, ',');
                lemma_digits_val_bound_of_field(fs[0]);
                assert(valid_log_entry(r));
                assert(r == log_view(r));
                assert forall|t: int|
                    0 <= t < parsed_records(ls).len() implies valid_log_entry(
                    #[trigger] parsed_records(ls)[t],
                ) && parsed_records(ls)[t] == log_view(parsed_records(ls)[t]) by {
                    if t < parsed_records(dl).len() {
                        assert(parsed_records(ls)[t] == parsed_records(dl)[t]);
                    } else {
                        assert(parsed_records(ls)[t] == r);
                    }
                }
            },
        }
    }
}

/// A valid key field denotes a value within the key type's range.
proof fn lemma_digits_val_bound_of_field(f: Seq<char>)
    requires
        valid_id_field(f),
    ensures
        -0x8000000000000000 <= id_field_val(f) <= 0x7fffffffffffffff,
{
    if f.len() >= 1 && f[0] == '-' {
        lemma_digits_val_bound(f.skip(1));
    } else {
        lemma_digits_val_bound(f);
    }
}

/// Splitting preserves freedom from any other character.
proof fn lemma_split_preserves_no_sep(s: Seq<char>, sep: char, other: char)
    requires
        no_sep(s, other),
    ensures
        forall|t: int|
            0 <= t < split_on(s, sep).len() ==> no_sep(#[trigger] split_on(s, sep)[t], other),
    decreases s.len(),
{
    if s.len() > 0 {
        lemma_find_idx(s, sep);
        let i = find_idx(s, sep);
        if i < 0 {
        } else {
            assert(no_sep(s.skip(i + 1), other)) by {
                assert(forall|j: int|
                    0 <= j < s.skip(i + 1).len() ==> #[trigger] s.skip(i + 1)[j] == s[j + i + 1]);
            }
            lemma_split_preserves_no_sep(s.skip(i + 1), sep, other);
            assert(no_sep(s.take(i), other)) by {
                assert(forall|j: int| 0 <= j < i ==> s.take(i)[j] == #[trigger] s[j]);
            }
            assert(forall|t: int|
                0 <= t < split_on(s.skip(i + 1), sep).len() ==> #[trigger] split_on(s, sep)[t + 1]
                    == split_on(s.skip(i + 1), sep)[t]);
            assert forall|t: int|
                0 <= t < split_on(s, sep).len() implies no_sep(
                #[trigger] split_on(s, sep)[t],
                other,
            ) by {
                if t > 0 {
                    assert(split_on(s, sep)[t] == split_on(s.skip(i + 1), sep)[t - 1]);
                }
            }
        }
    }
}

/// Log delete-last-match, seen through a reload: exactly the most recent
/// row for the key is gone; every earlier row for that key, and every row
/// for other keys, is still read back, in order.
pub proof fn lemma_delete_reload(rows: Seq<RecordView>, k: int)
    requires
        forall|i: int|
            0 <= i < rows.len() ==> valid_log_entry(#[trigger] rows[i]) && rows[i] == log_view(
                rows[i],
            ),
        last_match_idx(rows, k) >= 0,
    ensures
        ({
            let i = last_match_idx(rows, k);
            let kept = remove_last_match(rows, k);
            &&& rows[i].subject_id == k
            &&& forall|j: int| i < j < rows.len() ==> (#[trigger] rows[j]).subject_id != k
            &&& kept == rows.take(i) + rows.skip(i + 1)
            &&& parsed_records(data_lines(header_line() + render_entries(kept))) == kept
            &&& skipped_count(data_lines(header_line() + render_entries(kept))) == 0
        }),
{
    lemma_last_match_idx(rows, k);
    let i = last_match_idx(rows, k);
    let kept = remove_last_match(rows, k);
    assert(forall|j: int|
        0 <= j < kept.len() ==> #[trigger] kept[j] == if j < i {
            rows[j]
        } else {
            rows[j + 1]
        });
    assert(forall|j: int| 0 <= j < kept.len() ==> valid_log_entry(#[trigger] kept[j]));
    lemma_load_rendered(kept);
    assert(log_views(kept) =~= kept);
}

} // verus!

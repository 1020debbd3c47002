//! Image bookkeeping: the sequential identifier allocator and the metadata
//! record format under which an image is persisted by the storage
//! collaborator.
//!
//! An identifier is a zero-padded three-digit decimal, issued in order from
//! `001`; allocation fails once `999` identifiers have been issued. A
//! metadata record carries the identifier, the original file name, the
//! encoded image data and a timestamp in one braced key-value text.

use vstd::prelude::*;
use crate::highlight::push_char;

verus! {

broadcast use vstd::seq_lib::group_to_multiset_ensures;

/// Metadata of one stored image.
#[derive(Clone, Debug)]
pub struct ImageMetadata {
    pub id: String,
    pub filename: String,
    pub data: String,
    pub timestamp: u64,
}

/// Failure of identifier allocation: the identifier space is exhausted.
#[derive(Debug)]
pub enum AllocError {
    LimitReached,
}

impl AllocError {
    /// The message shown to the user for this failure.
    pub fn message(&self) -> (r: String)
        ensures
            r@ == "Maximum image limit reached (999)"@,
    {
        String::from_str("Maximum image limit reached (999)")
    }
}

/// The decimal digit characters.
pub open spec fn digit_char(d: nat) -> char {
    if d == 0 {
        '0'
    } else if d == 1 {
        '1'
    } else if d == 2 {
        '2'
    } else if d == 3 {
        '3'
    } else if d == 4 {
        '4'
    } else if d == 5 {
        '5'
    } else if d == 6 {
        '6'
    } else if d == 7 {
        '7'
    } else if d == 8 {
        '8'
    } else {
        '9'
    }
}

fn digit_exec(d: u64) -> (c: char)
    requires
        d < 10,
    ensures
        c == digit_char(d as nat),
{
    if d == 0 {
        '0'
    } else if d == 1 {
        '1'
    } else if d == 2 {
        '2'
    } else if d == 3 {
        '3'
    } else if d == 4 {
        '4'
    } else if d == 5 {
        '5'
    } else if d == 6 {
        '6'
    } else if d == 7 {
        '7'
    } else if d == 8 {
        '8'
    } else {
        '9'
    }
}

/// The decimal text of a number, most significant digit first, without
/// leading zeros.
pub open spec fn dec_digits(n: nat) -> Seq<char>
    decreases n,
{
    if n < 10 {
        seq![digit_char(n)]
    } else {
        dec_digits(n / 10) + seq![digit_char(n % 10)]
    }
}

pub proof fn lemma_dec_digits_unfold(n: nat)
    ensures
        n < 10 ==> dec_digits(n) == seq![digit_char(n)],
        n >= 10 ==> dec_digits(n) == dec_digits(n / 10) + seq![digit_char(n % 10)],
{
}

/// Appends the decimal text of `n`.
fn append_digits(out: &mut String, n: u64)
    ensures
        final(out)@ == old(out)@ + dec_digits(n as nat),
    decreases n,
{
    proof {
        lemma_dec_digits_unfold(n as nat);
    }
    if n < 10 {
        push_char(out, digit_exec(n));
        assert(seq![digit_char(n as nat)] =~= dec_digits(n as nat));
    } else {
        append_digits(out, n / 10);
        push_char(out, digit_exec(n % 10));
        assert(old(out)@ + dec_digits((n / 10) as nat) + seq![digit_char((n % 10) as nat)] =~= old(
            out,
        )@ + (dec_digits((n / 10) as nat) + seq![digit_char((n % 10) as nat)]));
    }
}

/// A zero-padded three-digit identifier.
pub open spec fn three_digit_id(n: u32) -> Seq<char> {
    seq![
        digit_char(((n / 100) % 10) as nat),
        digit_char(((n / 10) % 10) as nat),
        digit_char((n % 10) as nat),
    ]
}

/// Issues the next sequential identifier after `current` identifiers have
/// been issued: the new count and the identifier, zero-padded to three
/// digits. Fails with `LimitReached` exactly when the space of `999`
/// identifiers is exhausted.
pub fn generate_next_id(current: u32) -> (r: Result<(u32, String), AllocError>)
    ensures
        current >= 999 <==> r is Err,
        r is Err ==> r == Result::<(u32, String), AllocError>::Err(AllocError::LimitReached),
        (r matches Ok((next, id)) ==> next == current + 1 && id@ == three_digit_id(
            (current + 1) as u32,
        )),
{
    if current >= 999 {
        return Err(AllocError::LimitReached);
    }
    let next = current + 1;
    let mut id = String::new();
    push_char(&mut id, digit_exec(((next / 100) % 10) as u64));
    push_char(&mut id, digit_exec(((next / 10) % 10) as u64));
    push_char(&mut id, digit_exec((next % 10) as u64));
    proof {
        assert(id@ =~= three_digit_id(next));
    }
    Ok((next, id))
}

/// The text before the identifier of a metadata record.
pub open spec fn meta_lit_id() -> Seq<char> {
    seq!['{', '"', 'i', 'd', '"', ':', '"']
}

/// The text between the identifier and the file name.
pub open spec fn meta_lit_filename() -> Seq<char> {
    seq!['"', ',', '"', 'f', 'i', 'l', 'e', 'n', 'a', 'm', 'e', '"', ':', '"']
}

/// The text between the file name and the data.
pub open spec fn meta_lit_data() -> Seq<char> {
    seq!['"', ',', '"', 'd', 'a', 't', 'a', '"', ':', '"']
}

/// The text between the data and the timestamp.
pub open spec fn meta_lit_timestamp() -> Seq<char> {
    seq!['"', ',', '"', 't', 'i', 'm', 'e', 's', 't', 'a', 'm', 'p', '"', ':']
}

/// The whole metadata record of an image.
pub open spec fn metadata_text(id: Seq<char>, filename: Seq<char>, data: Seq<char>, ts: u64) -> Seq<
    char,
> {
    meta_lit_id() + id + meta_lit_filename() + filename + meta_lit_data() + data
        + meta_lit_timestamp() + dec_digits(ts as nat) + seq!['}']
}

/// No character of the text is a double quote; a field of a metadata
/// record must satisfy this, or the record's quoting would break.
pub open spec fn no_quote(s: Seq<char>) -> bool {
    forall|j: int| 0 <= j < s.len() ==> s[j] != '"'
}

/// The fields a metadata record can carry.
pub open spec fn wf_metadata_fields(id: Seq<char>, filename: Seq<char>, data: Seq<char>) -> bool {
    no_quote(id) && no_quote(filename) && no_quote(data)
}

pub open spec fn spec_is_digit(c: char) -> bool {
    c == '0' || c == '1' || c == '2' || c == '3' || c == '4' || c == '5' || c == '6' || c == '7'
        || c == '8' || c == '9'
}

pub open spec fn digit_val(c: char) -> nat {
    if c == '1' {
        1
    } else if c == '2' {
        2
    } else if c == '3' {
        3
    } else if c == '4' {
        4
    } else if c == '5' {
        5
    } else if c == '6' {
        6
    } else if c == '7' {
        7
    } else if c == '8' {
        8
    } else if c == '9' {
        9
    } else {
        0
    }
}

/// The number a digit text denotes, most significant digit first.
pub open spec fn dec_value(ds: Seq<char>) -> nat
    decreases ds.len(),
{
    if ds.len() == 0 {
        0
    } else {
        dec_value(ds.drop_last()) * 10 + digit_val(ds.last())
    }
}

pub proof fn lemma_dec_value_unfold(ds: Seq<char>)
    ensures
        ds.len() == 0 ==> dec_value(ds) == 0,
        ds.len() > 0 ==> dec_value(ds) == dec_value(ds.drop_last()) * 10 + digit_val(ds.last()),
{
}

pub proof fn lemma_digit_char_val(d: nat)
    requires
        d < 10,
    ensures
        digit_val(digit_char(d)) == d,
        spec_is_digit(digit_char(d)),
        d != 0 ==> digit_char(d) != '0',
{
}

pub proof fn lemma_digit_val_char(c: char)
    requires
        spec_is_digit(c),
    ensures
        digit_val(c) < 10,
        digit_char(digit_val(c)) == c,
{
}

/// The decimal text of a number is nonempty, all digits, and has a leading
/// zero only as the single digit of zero; and it denotes the number.
pub proof fn lemma_dec_digits_wf(n: nat)
    ensures
        dec_digits(n).len() >= 1,
        forall|k: int| 0 <= k < dec_digits(n).len() ==> spec_is_digit(#[trigger] dec_digits(n)[k]),
        dec_digits(n).len() > 1 ==> dec_digits(n)[0] != '0',
        dec_value(dec_digits(n)) == n,
    decreases n,
{
    lemma_dec_digits_unfold(n);
    if n < 10 {
        lemma_digit_char_val(n);
        let ds = seq![digit_char(n)];
        assert(ds.drop_last() =~= Seq::<char>::empty());
        lemma_dec_value_unfold(ds);
        lemma_dec_value_unfold(Seq::<char>::empty());
        assert forall|k: int| 0 <= k < ds.len() implies spec_is_digit(#[trigger] ds[k]) by {
            assert(ds[k] == digit_char(n));
        }
    } else {
        lemma_dec_digits_wf(n / 10);
        lemma_digit_char_val(n % 10);
        let hi = dec_digits(n / 10);
        let ds = hi + seq![digit_char(n % 10)];
        assert(ds.drop_last() =~= hi);
        assert(ds.last() == digit_char(n % 10));
        lemma_dec_value_unfold(ds);
        assert(dec_value(ds) == (n / 10) * 10 + (n % 10));
        assert forall|k: int| 0 <= k < ds.len() implies spec_is_digit(#[trigger] ds[k]) by {
            if k < hi.len() {
                assert(ds[k] == hi[k]);
            } else {
                assert(ds[k] == digit_char(n % 10));
            }
        }
        assert(ds[0] == hi[0]);
        if n / 10 < 10 {
            lemma_dec_digits_unfold(n / 10);
            assert(hi == seq![digit_char(n / 10)]);
            assert(hi[0] == digit_char(n / 10));
            lemma_digit_char_val(n / 10);
        } else {
            lemma_dec_digits_unfold(n / 10);
            lemma_dec_digits_wf(n / 100);
            assert(hi == dec_digits(n / 10 / 10) + seq![digit_char(n / 10 % 10)]);
            assert(n / 10 / 10 == n / 100) by (nonlinear_arith);
            assert(hi.len() > 1);
        }
    }
}

/// A nonempty digit text without a leading zero denotes at least one; a
/// longer one at least ten.
pub proof fn lemma_dec_value_lower(ds: Seq<char>)
    requires
        ds.len() >= 1,
        forall|k: int| 0 <= k < ds.len() ==> spec_is_digit(#[trigger] ds[k]),
        ds[0] != '0',
    ensures
        dec_value(ds) >= 1,
        ds.len() > 1 ==> dec_value(ds) >= 10,
    decreases ds.len(),
{
    lemma_dec_value_unfold(ds);
    if ds.len() == 1 {
        assert(ds.drop_last() =~= Seq::<char>::empty());
        lemma_dec_value_unfold(Seq::<char>::empty());
        assert(ds.last() == ds[0]);
        lemma_digit_val_char(ds[0]);
        assert(digit_val(ds[0]) >= 1);
    } else {
        assert(ds.drop_last()[0] == ds[0]);
        assert forall|k: int| 0 <= k < ds.drop_last().len() implies spec_is_digit(
            #[trigger] ds.drop_last()[k],
        ) by {
            assert(ds.drop_last()[k] == ds[k]);
        }
        lemma_dec_value_lower(ds.drop_last());
    }
}

/// A nonempty digit text without a leading zero is the decimal text of the
/// number it denotes: decimal representation is canonical.
pub proof fn lemma_dec_canonical(ds: Seq<char>)
    requires
        ds.len() >= 1,
        forall|k: int| 0 <= k < ds.len() ==> spec_is_digit(#[trigger] ds[k]),
        ds.len() > 1 ==> ds[0] != '0',
    ensures
        dec_digits(dec_value(ds)) == ds,
    decreases ds.len(),
{
    lemma_dec_value_unfold(ds);
    let v = dec_value(ds);
    lemma_dec_digits_unfold(v);
    if ds.len() == 1 {
        assert(ds.drop_last() =~= Seq::<char>::empty());
        lemma_dec_value_unfold(Seq::<char>::empty());
        assert(ds.last() == ds[0]);
        lemma_digit_val_char(ds[0]);
        assert(v == digit_val(ds[0]));
        assert(dec_digits(v) == seq![digit_char(v)]);
        assert(seq![digit_char(v)] =~= ds);
    } else {
        let hi = ds.drop_last();
        assert(hi[0] == ds[0]);
        assert forall|k: int| 0 <= k < hi.len() implies spec_is_digit(#[trigger] hi[k]) by {
            assert(hi[k] == ds[k]);
        }
        lemma_dec_value_lower(hi);
        lemma_digit_val_char(ds.last());
        assert(v == dec_value(hi) * 10 + digit_val(ds.last()));
        assert(v >= 10);
        assert(v / 10 == dec_value(hi)) by (nonlinear_arith)
            requires
                v == dec_value(hi) * 10 + digit_val(ds.last()),
                digit_val(ds.last()) < 10,
        ;
        assert(v % 10 == digit_val(ds.last())) by (nonlinear_arith)
            requires
                v == dec_value(hi) * 10 + digit_val(ds.last()),
                digit_val(ds.last()) < 10,
        ;
        lemma_dec_canonical(hi);
        assert(dec_digits(v) == dec_digits(dec_value(hi)) + seq![digit_char(digit_val(ds.last()))]);
        assert(hi + seq![ds.last()] =~= ds);
    }
}

/// A digit prefix never denotes more than the whole digit text.
pub proof fn lemma_dec_value_prefix(ds: Seq<char>, m: int)
    requires
        0 <= m <= ds.len(),
    ensures
        dec_value(ds.take(m)) <= dec_value(ds),
    decreases ds.len() - m,
{
    if m < ds.len() {
        lemma_dec_value_prefix(ds, m + 1);
        let p = ds.take(m + 1);
        lemma_dec_value_unfold(p);
        assert(p.drop_last() =~= ds.take(m));
        assert(dec_value(ds.take(m)) <= dec_value(ds.take(m)) * 10 + digit_val(p.last()))
            by (nonlinear_arith);
    } else {
        assert(ds.take(m) =~= ds);
    }
}

fn is_digit_exec(c: char) -> (r: bool)
    ensures
        r == spec_is_digit(c),
{
    c == '0' || c == '1' || c == '2' || c == '3' || c == '4' || c == '5' || c == '6' || c == '7'
        || c == '8' || c == '9'
}

fn digit_val_exec(c: char) -> (r: u64)
    requires
        spec_is_digit(c),
    ensures
        r == digit_val(c),
        r < 10,
{
    if c == '1' {
        1
    } else if c == '2' {
        2
    } else if c == '3' {
        3
    } else if c == '4' {
        4
    } else if c == '5' {
        5
    } else if c == '6' {
        6
    } else if c == '7' {
        7
    } else if c == '8' {
        8
    } else if c == '9' {
        9
    } else {
        0
    }
}

/// Whether the text carries `pat` starting at position `i`.
fn match_prefix(s: &str, i: usize, pat: &str) -> (r: bool)
    requires
        i <= s@.len(),
    ensures
        r == (i + pat@.len() <= s@.len() && s@.subrange(i as int, i + pat@.len()) == pat@),
{
    let n = s.unicode_len();
    let m = pat.unicode_len();
    if n - i < m {
        return false;
    }
    let mut k: usize = 0;
    while k < m
        invariant
            0 <= k <= m,
            i + m <= n,
            n == s@.len(),
            m == pat@.len(),
            forall|j: int| 0 <= j < k ==> s@[i + j] == pat@[j],
        decreases m - k,
    {
        if s.get_char(i + k) != pat.get_char(k) {
            proof {
                assert(s@.subrange(i as int, i + pat@.len())[k as int] == s@[i + k]);
            }
            return false;
        }
        k = k + 1;
    }
    proof {
        assert(s@.subrange(i as int, i + pat@.len()) =~= pat@);
    }
    true
}

/// The position of the first double quote at or after `i`.
fn scan_to_quote(s: &str, i: usize) -> (r: Option<usize>)
    requires
        i <= s@.len(),
    ensures
        (r matches Some(j) ==> i <= j < s@.len() && s@[j as int] == '"' && (forall|k: int|
            i <= k < j ==> s@[k] != '"')),
        r is None ==> (forall|k: int| i <= k < s@.len() ==> s@[k] != '"'),
{
    let n = s.unicode_len();
    let mut j = i;
    while j < n
        invariant
            i <= j <= n,
            n == s@.len(),
            forall|k: int| i <= k < j ==> s@[k] != '"',
        decreases n - j,
    {
        if s.get_char(j) == '"' {
            return Some(j);
        }
        j = j + 1;
    }
    None
}

/// A decimal number, in canonical form (no leading zeros), stands at
/// position `i` and runs to the next non-digit or to the end.
pub open spec fn number_at(s: Seq<char>, i: int, v: u64) -> bool {
    &&& i + dec_digits(v as nat).len() <= s.len()
    &&& s.subrange(i, i + dec_digits(v as nat).len() as int) == dec_digits(v as nat)
    &&& (i + dec_digits(v as nat).len() == s.len() || !spec_is_digit(
        s[i + dec_digits(v as nat).len() as int],
    ))
}

/// A maximal digit run that some number's canonical text covers is exactly
/// that text.
proof fn lemma_run_is_number(s: Seq<char>, i: int, j: int, v: u64)
    requires
        0 <= i <= j <= s.len(),
        forall|k: int| i <= k < j ==> spec_is_digit(#[trigger] s[k]),
        j == s.len() || !spec_is_digit(s[j]),
        number_at(s, i, v),
    ensures
        j == i + dec_digits(v as nat).len(),
        s.subrange(i, j) == dec_digits(v as nat),
        dec_value(s.subrange(i, j)) == v,
{
    lemma_dec_digits_wf(v as nat);
    let l = dec_digits(v as nat).len() as int;
    if j < i + l {
        assert(s.subrange(i, i + l)[j - i] == s[j]);
        assert(spec_is_digit(dec_digits(v as nat)[j - i]));
        assert(false);
    }
    if j > i + l {
        assert(spec_is_digit(s[i + l]));
        assert(false);
    }
}

/// Reads the decimal number standing at position `i`: its value and the
/// position just past its digits. Fails where no digit stands at `i`, on a
/// leading zero, and on a value that does not fit.
fn parse_number(s: &str, i: usize) -> (r: Option<(u64, usize)>)
    requires
        i <= s@.len(),
    ensures
        (r matches Some(pair) ==> i < pair.1 <= s@.len() && s@.subrange(i as int, pair.1 as int)
            == dec_digits(pair.0 as nat) && (pair.1 < s@.len() ==> !spec_is_digit(
            s@[pair.1 as int],
        ))),
        forall|v: u64|
            #[trigger] number_at(s@, i as int, v) ==> r == Some(
                (v, (i + dec_digits(v as nat).len()) as usize),
            ),
{
    let n = s.unicode_len();
    let mut j = i;
    while j < n && is_digit_exec(s.get_char(j))
        invariant
            i <= j <= n,
            n == s@.len(),
            forall|k: int| i <= k < j ==> spec_is_digit(#[trigger] s@[k]),
        decreases n - j,
    {
        j = j + 1;
    }
    assert(j == s@.len() || !spec_is_digit(s@[j as int]));
    if j == i {
        proof {
            assert forall|v: u64| !number_at(s@, i as int, v) by {
                if number_at(s@, i as int, v) {
                    lemma_run_is_number(s@, i as int, i as int, v);
                    lemma_dec_digits_wf(v as nat);
                }
            }
        }
        return None;
    }
    if s.get_char(i) == '0' && j - i > 1 {
        proof {
            assert forall|v: u64| !number_at(s@, i as int, v) by {
                if number_at(s@, i as int, v) {
                    lemma_run_is_number(s@, i as int, j as int, v);
                    lemma_dec_digits_wf(v as nat);
                    assert(s@.subrange(i as int, j as int)[0] == s@[i as int]);
                }
            }
        }
        return None;
    }
    let ghost run = s@.subrange(i as int, j as int);
    let mut val: u64 = 0;
    let mut k = i;
    proof {
        assert(s@.subrange(i as int, i as int) =~= Seq::<char>::empty());
        lemma_dec_value_unfold(Seq::<char>::empty());
    }
    while k < j
        invariant
            i <= k <= j <= n,
            n == s@.len(),
            run == s@.subrange(i as int, j as int),
            forall|k2: int| i <= k2 < j ==> spec_is_digit(#[trigger] s@[k2]),
            j == s@.len() || !spec_is_digit(s@[j as int]),
            j > i,
            s@[i as int] == '0' ==> j - i == 1,
            val == dec_value(s@.subrange(i as int, k as int)),
        decreases j - k,
    {
        let d = digit_val_exec(s.get_char(k));
        if val > (u64::MAX - d) / 10 {
            proof {
                assert forall|v: u64| !number_at(s@, i as int, v) by {
                    if number_at(s@, i as int, v) {
                        lemma_run_is_number(s@, i as int, j as int, v);
                        lemma_dec_digits_wf(v as nat);
                        lemma_dec_value_prefix(run, k + 1 - i);
                        assert(s@.subrange(i as int, k + 1) =~= run.take(k + 1 - i));
                        lemma_dec_value_unfold(s@.subrange(i as int, k + 1));
                        assert(s@.subrange(i as int, k + 1).drop_last() =~= s@.subrange(
                            i as int,
                            k as int,
                        ));
                        assert(s@.subrange(i as int, k + 1).last() == s@[k as int]);
                        assert(dec_value(s@.subrange(i as int, k + 1)) == val * 10 + d);
                        assert(val * 10 + d <= v);
                        assert(val * 10 + d > u64::MAX) by (nonlinear_arith)
                            requires
                                val > (u64::MAX - d) / 10,
                                d < 10,
                        ;
                    }
                }
            }
            return None;
        }
        proof {
            assert(val * 10 + d <= u64::MAX) by (nonlinear_arith)
                requires
                    val <= (u64::MAX - d) / 10,
                    d < 10,
            ;
        }
        val = val * 10 + d;
        proof {
            assert(s@.subrange(i as int, k + 1).drop_last() =~= s@.subrange(i as int, k as int));
            assert(s@.subrange(i as int, k + 1).last() == s@[k as int]);
            lemma_dec_value_unfold(s@.subrange(i as int, k + 1));
        }
        k = k + 1;
    }
    proof {
        assert(run.len() >= 1);
        assert(run[0] == s@[i as int]);
        assert forall|k2: int| 0 <= k2 < run.len() implies spec_is_digit(#[trigger] run[k2]) by {
            assert(run[k2] == s@[i + k2]);
        }
        lemma_dec_canonical(run);
        assert forall|v: u64|
            #[trigger] number_at(s@, i as int, v) implies Some((val, j)) == Some(
            (v, (i + dec_digits(v as nat).len()) as usize),
        ) by {
            lemma_run_is_number(s@, i as int, j as int, v);
        }
    }
    Some((val, j))
}

/// Where each part of a well-formed metadata record stands in its text.
proof fn lemma_metadata_positions(
    s: Seq<char>,
    id: Seq<char>,
    f: Seq<char>,
    d: Seq<char>,
    ts: u64,
)
    requires
        wf_metadata_fields(id, f, d),
        s == metadata_text(id, f, d, ts),
    ensures
        s.len() == 46 + id.len() as int as int + f.len() as int + d.len() as int + dec_digits(ts as nat).len() as int,
        s.subrange(0, 7) == meta_lit_id(),
        s.subrange(7, 7 + id.len() as int) == id,
        forall|k: int| 7 <= k < 7 + id.len() as int ==> s[k] != '"',
        s[7 + id.len() as int] == '"',
        s.subrange(7 + id.len() as int, 21 + id.len() as int) == meta_lit_filename(),
        s.subrange(21 + id.len() as int, 21 + id.len() as int + f.len() as int) == f,
        forall|k: int| 21 + id.len() as int <= k < 21 + id.len() as int + f.len() as int ==> s[k] != '"',
        s[21 + id.len() as int + f.len() as int] == '"',
        s.subrange(21 + id.len() as int + f.len() as int, 31 + id.len() as int + f.len() as int) == meta_lit_data(),
        s.subrange(31 + id.len() as int + f.len() as int, 31 + id.len() as int + f.len() as int + d.len() as int) == d,
        forall|k: int| 31 + id.len() as int + f.len() as int <= k < 31 + id.len() as int + f.len() as int + d.len() as int ==> s[k]
            != '"',
        s[31 + id.len() as int + f.len() as int + d.len() as int] == '"',
        s.subrange(31 + id.len() as int + f.len() as int + d.len() as int, 45 + id.len() as int + f.len() as int + d.len() as int)
            == meta_lit_timestamp(),
        number_at(s, 45 + id.len() as int + f.len() as int + d.len() as int, ts),
        s[s.len() - 1] == '}',
{
    let l1: int = 7;
    let o1: int = l1 + id.len() as int;
    let o2: int = o1 + 14;
    let o3: int = o2 + f.len() as int;
    let o4: int = o3 + 10;
    let o5: int = o4 + d.len() as int;
    let o6: int = o5 + 14;
    let dd = dec_digits(ts as nat);
    let o7: int = o6 + dd.len() as int;
    assert(s.len() == o7 + 1);
    assert(s.subrange(0, 7) =~= meta_lit_id());
    assert(s.subrange(l1, o1) =~= id);
    assert forall|k: int| l1 <= k < o1 implies s[k] != '"' by {
        assert(s[k] == id[k - l1]);
    }
    assert(s.subrange(o1, o2) =~= meta_lit_filename());
    assert(s[o1] == meta_lit_filename()[0]);
    assert(s.subrange(o2, o3) =~= f);
    assert forall|k: int| o2 <= k < o3 implies s[k] != '"' by {
        assert(s[k] == f[k - o2]);
    }
    assert(s.subrange(o3, o4) =~= meta_lit_data());
    assert(s[o3] == meta_lit_data()[0]);
    assert(s.subrange(o4, o5) =~= d);
    assert forall|k: int| o4 <= k < o5 implies s[k] != '"' by {
        assert(s[k] == d[k - o4]);
    }
    assert(s.subrange(o5, o6) =~= meta_lit_timestamp());
    assert(s[o5] == meta_lit_timestamp()[0]);
    assert(s.subrange(o6, o7) =~= dd);
    assert(s[o7] == '}');
    assert(!spec_is_digit('}'));
}


/// No well-formed metadata record has this text.
pub open spec fn no_metadata(s: Seq<char>) -> bool {
    forall|id: Seq<char>, f: Seq<char>, d: Seq<char>, ts: u64|
        !(wf_metadata_fields(id, f, d) && s == #[trigger] metadata_text(id, f, d, ts))
}

/// `j` is the position of the first double quote at or after `i`.
pub open spec fn first_quote_from(s: Seq<char>, i: int, j: int) -> bool {
    i <= j < s.len() && s[j] == '"' && (forall|k: int| i <= k < j ==> s[k] != '"')
}

proof fn lemma_meta_j1(s: Seq<char>, j1: int, id: Seq<char>, f: Seq<char>, d: Seq<char>, ts: u64)
    requires
        wf_metadata_fields(id, f, d),
        s == metadata_text(id, f, d, ts),
        first_quote_from(s, 7, j1),
    ensures
        j1 == 7 + id.len() as int,
{
    lemma_metadata_positions(s, id, f, d, ts);
    let o1: int = 7 + id.len() as int;
    if j1 < o1 {
        assert(s[j1] != '"');
    }
    if j1 > o1 {
        assert(s[o1] != '"');
    }
}

proof fn lemma_meta_j2(s: Seq<char>, j2: int, id: Seq<char>, f: Seq<char>, d: Seq<char>, ts: u64)
    requires
        wf_metadata_fields(id, f, d),
        s == metadata_text(id, f, d, ts),
        first_quote_from(s, 21 + id.len() as int, j2),
    ensures
        j2 == 21 + id.len() as int + f.len() as int,
{
    lemma_metadata_positions(s, id, f, d, ts);
    let o2: int = 21 + id.len() as int + f.len() as int;
    if j2 < o2 {
        assert(s[j2] != '"');
    }
    if j2 > o2 {
        assert(s[o2] != '"');
    }
}

proof fn lemma_meta_j3(s: Seq<char>, j3: int, id: Seq<char>, f: Seq<char>, d: Seq<char>, ts: u64)
    requires
        wf_metadata_fields(id, f, d),
        s == metadata_text(id, f, d, ts),
        first_quote_from(s, 31 + id.len() as int + f.len() as int, j3),
    ensures
        j3 == 31 + id.len() as int + f.len() as int + d.len() as int,
{
    lemma_metadata_positions(s, id, f, d, ts);
    let o3: int = 31 + id.len() as int + f.len() as int + d.len() as int;
    if j3 < o3 {
        assert(s[j3] != '"');
    }
    if j3 > o3 {
        assert(s[o3] != '"');
    }
}

proof fn lemma_meta_fail_prefix(s: Seq<char>)
    requires
        !(7 <= s.len() && s.subrange(0, 7) == meta_lit_id()),
    ensures
        no_metadata(s),
{
    assert forall|id: Seq<char>, f: Seq<char>, d: Seq<char>, ts: u64|
        !(wf_metadata_fields(id, f, d) && s == #[trigger] metadata_text(id, f, d, ts)) by {
        if wf_metadata_fields(id, f, d) && s == metadata_text(id, f, d, ts) {
            lemma_metadata_positions(s, id, f, d, ts);
        }
    }
}

proof fn lemma_meta_fail_scan1(s: Seq<char>)
    requires
        forall|k: int| 7 <= k < s.len() ==> s[k] != '"',
    ensures
        no_metadata(s),
{
    assert forall|id: Seq<char>, f: Seq<char>, d: Seq<char>, ts: u64|
        !(wf_metadata_fields(id, f, d) && s == #[trigger] metadata_text(id, f, d, ts)) by {
        if wf_metadata_fields(id, f, d) && s == metadata_text(id, f, d, ts) {
            lemma_metadata_positions(s, id, f, d, ts);
            assert(s[7 + id.len() as int] == '"');
        }
    }
}

proof fn lemma_meta_fail_match2(s: Seq<char>, j1: int)
    requires
        first_quote_from(s, 7, j1),
        !(j1 + 14 <= s.len() && s.subrange(j1, j1 + 14) == meta_lit_filename()),
    ensures
        no_metadata(s),
{
    assert forall|id: Seq<char>, f: Seq<char>, d: Seq<char>, ts: u64|
        !(wf_metadata_fields(id, f, d) && s == #[trigger] metadata_text(id, f, d, ts)) by {
        if wf_metadata_fields(id, f, d) && s == metadata_text(id, f, d, ts) {
            lemma_meta_j1(s, j1, id, f, d, ts);
            lemma_metadata_positions(s, id, f, d, ts);
        }
    }
}

proof fn lemma_meta_fail_scan2(s: Seq<char>, j1: int)
    requires
        first_quote_from(s, 7, j1),
        forall|k: int| j1 + 14 <= k < s.len() ==> s[k] != '"',
    ensures
        no_metadata(s),
{
    assert forall|id: Seq<char>, f: Seq<char>, d: Seq<char>, ts: u64|
        !(wf_metadata_fields(id, f, d) && s == #[trigger] metadata_text(id, f, d, ts)) by {
        if wf_metadata_fields(id, f, d) && s == metadata_text(id, f, d, ts) {
            lemma_meta_j1(s, j1, id, f, d, ts);
            lemma_metadata_positions(s, id, f, d, ts);
            assert(s[21 + id.len() as int + f.len() as int] == '"');
        }
    }
}

proof fn lemma_meta_fail_match3(s: Seq<char>, j1: int, j2: int)
    requires
        first_quote_from(s, 7, j1),
        first_quote_from(s, j1 + 14, j2),
        !(j2 + 10 <= s.len() && s.subrange(j2, j2 + 10) == meta_lit_data()),
    ensures
        no_metadata(s),
{
    assert forall|id: Seq<char>, f: Seq<char>, d: Seq<char>, ts: u64|
        !(wf_metadata_fields(id, f, d) && s == #[trigger] metadata_text(id, f, d, ts)) by {
        if wf_metadata_fields(id, f, d) && s == metadata_text(id, f, d, ts) {
            lemma_meta_j1(s, j1, id, f, d, ts);
            lemma_meta_j2(s, j2, id, f, d, ts);
            lemma_metadata_positions(s, id, f, d, ts);
        }
    }
}

proof fn lemma_meta_fail_scan3(s: Seq<char>, j1: int, j2: int)
    requires
        first_quote_from(s, 7, j1),
        first_quote_from(s, j1 + 14, j2),
        forall|k: int| j2 + 10 <= k < s.len() ==> s[k] != '"',
    ensures
        no_metadata(s),
{
    assert forall|id: Seq<char>, f: Seq<char>, d: Seq<char>, ts: u64|
        !(wf_metadata_fields(id, f, d) && s == #[trigger] metadata_text(id, f, d, ts)) by {
        if wf_metadata_fields(id, f, d) && s == metadata_text(id, f, d, ts) {
            lemma_meta_j1(s, j1, id, f, d, ts);
            lemma_meta_j2(s, j2, id, f, d, ts);
            lemma_metadata_positions(s, id, f, d, ts);
            assert(s[31 + id.len() as int + f.len() as int + d.len() as int] == '"');
        }
    }
}

proof fn lemma_meta_fail_match4(s: Seq<char>, j1: int, j2: int, j3: int)
    requires
        first_quote_from(s, 7, j1),
        first_quote_from(s, j1 + 14, j2),
        first_quote_from(s, j2 + 10, j3),
        !(j3 + 14 <= s.len() && s.subrange(j3, j3 + 14) == meta_lit_timestamp()),
    ensures
        no_metadata(s),
{
    assert forall|id: Seq<char>, f: Seq<char>, d: Seq<char>, ts: u64|
        !(wf_metadata_fields(id, f, d) && s == #[trigger] metadata_text(id, f, d, ts)) by {
        if wf_metadata_fields(id, f, d) && s == metadata_text(id, f, d, ts) {
            lemma_meta_j1(s, j1, id, f, d, ts);
            lemma_meta_j2(s, j2, id, f, d, ts);
            lemma_meta_j3(s, j3, id, f, d, ts);
            lemma_metadata_positions(s, id, f, d, ts);
        }
    }
}

proof fn lemma_meta_fail_number(s: Seq<char>, j1: int, j2: int, j3: int)
    requires
        first_quote_from(s, 7, j1),
        first_quote_from(s, j1 + 14, j2),
        first_quote_from(s, j2 + 10, j3),
        forall|v: u64| !(#[trigger] number_at(s, j3 + 14, v)),
    ensures
        no_metadata(s),
{
    assert forall|id: Seq<char>, f: Seq<char>, d: Seq<char>, ts: u64|
        !(wf_metadata_fields(id, f, d) && s == #[trigger] metadata_text(id, f, d, ts)) by {
        if wf_metadata_fields(id, f, d) && s == metadata_text(id, f, d, ts) {
            lemma_meta_j1(s, j1, id, f, d, ts);
            lemma_meta_j2(s, j2, id, f, d, ts);
            lemma_meta_j3(s, j3, id, f, d, ts);
            lemma_metadata_positions(s, id, f, d, ts);
            assert(number_at(s, j3 + 14, ts));
        }
    }
}

proof fn lemma_meta_fail_tail(s: Seq<char>, j1: int, j2: int, j3: int, j4: int, tsv: u64)
    requires
        first_quote_from(s, 7, j1),
        first_quote_from(s, j1 + 14, j2),
        first_quote_from(s, j2 + 10, j3),
        forall|v: u64|
            #[trigger] number_at(s, j3 + 14, v) ==> v == tsv && j3 + 14 + dec_digits(
                v as nat,
            ).len() as int == j4,
        !(j4 + 1 == s.len() && 0 <= j4 < s.len() && s.subrange(j4, j4 + 1) == seq!['}']),
    ensures
        no_metadata(s),
{
    assert forall|id: Seq<char>, f: Seq<char>, d: Seq<char>, ts: u64|
        !(wf_metadata_fields(id, f, d) && s == #[trigger] metadata_text(id, f, d, ts)) by {
        if wf_metadata_fields(id, f, d) && s == metadata_text(id, f, d, ts) {
            lemma_meta_j1(s, j1, id, f, d, ts);
            lemma_meta_j2(s, j2, id, f, d, ts);
            lemma_meta_j3(s, j3, id, f, d, ts);
            lemma_metadata_positions(s, id, f, d, ts);
            assert(number_at(s, j3 + 14, ts));
            assert(j4 == s.len() - 1);
            assert(s.subrange(j4, j4 + 1) =~= seq![s[j4]]);
        }
    }
}

proof fn lemma_meta_success(
    s: Seq<char>,
    j1: int,
    j2: int,
    j3: int,
    j4: int,
    tsv: u64,
    idv: Seq<char>,
    fv: Seq<char>,
    dv: Seq<char>,
)
    requires
        first_quote_from(s, 7, j1),
        first_quote_from(s, j1 + 14, j2),
        first_quote_from(s, j2 + 10, j3),
        forall|v: u64|
            #[trigger] number_at(s, j3 + 14, v) ==> v == tsv && j3 + 14 + dec_digits(
                v as nat,
            ).len() as int == j4,
        idv == s.subrange(7, j1),
        fv == s.subrange(j1 + 14, j2),
        dv == s.subrange(j2 + 10, j3),
    ensures
        forall|id: Seq<char>, f: Seq<char>, d: Seq<char>, ts: u64|
            (wf_metadata_fields(id, f, d) && s == #[trigger] metadata_text(id, f, d, ts)) ==> (idv
                == id && fv == f && dv == d && tsv == ts),
{
    assert forall|id: Seq<char>, f: Seq<char>, d: Seq<char>, ts: u64|
        (wf_metadata_fields(id, f, d) && s == #[trigger] metadata_text(id, f, d, ts)) implies (idv
        == id && fv == f && dv == d && tsv == ts) by {
        lemma_meta_j1(s, j1, id, f, d, ts);
        lemma_meta_j2(s, j2, id, f, d, ts);
        lemma_meta_j3(s, j3, id, f, d, ts);
        lemma_metadata_positions(s, id, f, d, ts);
        assert(number_at(s, j3 + 14, ts));
        assert(idv =~= id);
        assert(fv =~= f);
        assert(dv =~= d);
    }
}

/// Putting the pieces of a successful scan back together yields one
/// well-formed metadata record.
#[verifier::rlimit(100)]
proof fn lemma_meta_reconstruct(s: Seq<char>, j1: int, j2: int, j3: int, j4: int, tsv: u64)
    requires
        7 <= j1,
        j1 + 14 <= j2,
        j2 + 10 <= j3,
        j3 + 14 <= j4,
        j4 + 1 == s.len(),
        s.subrange(0, 7) == meta_lit_id(),
        forall|k: int| 7 <= k < j1 ==> s[k] != '"',
        forall|k: int| j1 + 14 <= k < j2 ==> s[k] != '"',
        forall|k: int| j2 + 10 <= k < j3 ==> s[k] != '"',
        s.subrange(j1, j1 + 14) == meta_lit_filename(),
        s.subrange(j2, j2 + 10) == meta_lit_data(),
        s.subrange(j3, j3 + 14) == meta_lit_timestamp(),
        s.subrange(j3 + 14, j4) == dec_digits(tsv as nat),
        s.subrange(j4, j4 + 1) == seq!['}'],
    ensures
        s == metadata_text(s.subrange(7, j1), s.subrange(j1 + 14, j2), s.subrange(j2 + 10, j3), tsv),
        wf_metadata_fields(s.subrange(7, j1), s.subrange(j1 + 14, j2), s.subrange(j2 + 10, j3)),
{
    let idv = s.subrange(7, j1);
    let fv = s.subrange(j1 + 14, j2);
    let dv = s.subrange(j2 + 10, j3);
    assert(s[j4] == s.subrange(j4, j4 + 1)[0]);
    assert forall|k: int| 0 <= k < idv.len() implies idv[k] != '"' by {
        assert(idv[k] == s[7 + k]);
    }
    assert forall|k: int| 0 <= k < fv.len() implies fv[k] != '"' by {
        assert(fv[k] == s[j1 + 14 + k]);
    }
    assert forall|k: int| 0 <= k < dv.len() implies dv[k] != '"' by {
        assert(dv[k] == s[j2 + 10 + k]);
    }
    assert(s =~= meta_lit_id() + idv + meta_lit_filename() + fv + meta_lit_data() + dv
        + meta_lit_timestamp() + dec_digits(tsv as nat) + seq!['}']);
}

/// Reads a metadata record back into its fields: succeeds on exactly the
/// texts that `build_metadata` writes from well-formed fields, and returns
/// exactly those fields.
pub fn parse_metadata(s: &str) -> (r: Option<ImageMetadata>)
    ensures
        (r matches Some(m) ==> wf_metadata_fields(m.id@, m.filename@, m.data@) && s@
            == metadata_text(m.id@, m.filename@, m.data@, m.timestamp)),
        forall|id: Seq<char>, f: Seq<char>, d: Seq<char>, ts: u64|
            (wf_metadata_fields(id, f, d) && s@ == #[trigger] metadata_text(id, f, d, ts)) ==> (
            r matches Some(m) && m.id@ == id && m.filename@ == f && m.data@ == d && m.timestamp
                == ts),
{
    let n = s.unicode_len();
    proof {
        reveal_strlit("{\"id\":\"");
        assert("{\"id\":\""@ =~= meta_lit_id());
        reveal_strlit("\",\"filename\":\"");
        assert("\",\"filename\":\""@ =~= meta_lit_filename());
        reveal_strlit("\",\"data\":\"");
        assert("\",\"data\":\""@ =~= meta_lit_data());
        reveal_strlit("\",\"timestamp\":");
        assert("\",\"timestamp\":"@ =~= meta_lit_timestamp());
        reveal_strlit("}");
        assert("}"@ =~= seq!['}']);
    }
    if !match_prefix(s, 0, "{\"id\":\"") {
        proof {
            lemma_meta_fail_prefix(s@);
        }
        return None;
    }
    let j1 = match scan_to_quote(s, 7) {
        Some(j) => j,
        None => {
            proof {
                lemma_meta_fail_scan1(s@);
            }
            return None;
        },
    };
    let idv = s.substring_char(7, j1).to_owned();
    if !match_prefix(s, j1, "\",\"filename\":\"") {
        proof {
            lemma_meta_fail_match2(s@, j1 as int);
        }
        return None;
    }
    let j2 = match scan_to_quote(s, j1 + 14) {
        Some(j) => j,
        None => {
            proof {
                lemma_meta_fail_scan2(s@, j1 as int);
            }
            return None;
        },
    };
    let fv = s.substring_char(j1 + 14, j2).to_owned();
    if !match_prefix(s, j2, "\",\"data\":\"") {
        proof {
            lemma_meta_fail_match3(s@, j1 as int, j2 as int);
        }
        return None;
    }
    let j3 = match scan_to_quote(s, j2 + 10) {
        Some(j) => j,
        None => {
            proof {
                lemma_meta_fail_scan3(s@, j1 as int, j2 as int);
            }
            return None;
        },
    };
    let dv = s.substring_char(j2 + 10, j3).to_owned();
    if !match_prefix(s, j3, "\",\"timestamp\":") {
        proof {
            lemma_meta_fail_match4(s@, j1 as int, j2 as int, j3 as int);
        }
        return None;
    }
    let (ts_val, j4) = match parse_number(s, j3 + 14) {
        Some(pair) => pair,
        None => {
            proof {
                assert forall|v: u64| !(#[trigger] number_at(s@, j3 + 14, v)) by {
                    if number_at(s@, j3 + 14, v) {
                        assert(false);
                    }
                }
                lemma_meta_fail_number(s@, j1 as int, j2 as int, j3 as int);
            }
            return None;
        },
    };
    proof {
        assert forall|v: u64|
            #[trigger] number_at(s@, j3 + 14, v) implies v == ts_val && j3 + 14 + dec_digits(
            v as nat,
        ).len() as int == j4 as int by {
        }
    }
    if !match_prefix(s, j4, "}") || j4 + 1 != n {
        proof {
            lemma_meta_fail_tail(s@, j1 as int, j2 as int, j3 as int, j4 as int, ts_val);
        }
        return None;
    }
    let m = ImageMetadata { id: idv, filename: fv, data: dv, timestamp: ts_val };
    proof {
        lemma_meta_reconstruct(s@, j1 as int, j2 as int, j3 as int, j4 as int, ts_val);
        lemma_meta_success(
            s@,
            j1 as int,
            j2 as int,
            j3 as int,
            j4 as int,
            ts_val,
            m.id@,
            m.filename@,
            m.data@,
        );
    }
    Some(m)
}


/// Builds the metadata record under which an image is persisted.
pub fn build_metadata(id: &str, filename: &str, data: &str, timestamp: u64) -> (r: String)
    ensures
        r@ == metadata_text(id@, filename@, data@, timestamp),
{
    let mut out = String::new();
    out.append("{\"id\":\"");
    proof {
        reveal_strlit("{\"id\":\"");
        assert("{\"id\":\""@ =~= meta_lit_id());
    }
    out.append(id);
    out.append("\",\"filename\":\"");
    proof {
        reveal_strlit("\",\"filename\":\"");
        assert("\",\"filename\":\""@ =~= meta_lit_filename());
    }
    out.append(filename);
    out.append("\",\"data\":\"");
    proof {
        reveal_strlit("\",\"data\":\"");
        assert("\",\"data\":\""@ =~= meta_lit_data());
    }
    out.append(data);
    out.append("\",\"timestamp\":");
    proof {
        reveal_strlit("\",\"timestamp\":");
        assert("\",\"timestamp\":"@ =~= meta_lit_timestamp());
    }
    append_digits(&mut out, timestamp);
    out.append("}");
    proof {
        reveal_strlit("}");
        assert("}"@ =~= seq!['}']);
        assert(out@ =~= metadata_text(id@, filename@, data@, timestamp));
    }
    out
}

/// Lexicographic order on texts, comparing characters by code point — the
/// order in which stored images are listed by their identifiers.
pub open spec fn lex_le(a: Seq<char>, b: Seq<char>) -> bool {
    ||| (exists|i: int|
        0 <= i < a.len() && i < b.len() && (a[i] as u32) < (b[i] as u32) && (forall|j: int|
            0 <= j < i ==> (a[j] as u32) == (b[j] as u32)))
    ||| (a.len() <= b.len() && (forall|j: int| 0 <= j < a.len() ==> (a[j] as u32) == (b[j] as u32)))
}

/// Some position of disagreement yields a first position of disagreement.
proof fn lemma_lex_first_diff(a: Seq<char>, b: Seq<char>, w: int)
    requires
        0 <= w < a.len(),
        w < b.len(),
        (a[w] as u32) != (b[w] as u32),
    ensures
        exists|i: int|
            0 <= i < a.len() && i < b.len() && (a[i] as u32) != (b[i] as u32) && (forall|j: int|
                0 <= j < i ==> (a[j] as u32) == (b[j] as u32)),
    decreases w,
{
    if forall|j: int| 0 <= j < w ==> (a[j] as u32) == (b[j] as u32) {
        assert(0 <= w < a.len() && w < b.len() && (a[w] as u32) != (b[w] as u32) && (forall|j: int|
            0 <= j < w ==> (a[j] as u32) == (b[j] as u32)));
    } else {
        let j0 = choose|j: int| 0 <= j < w && (a[j] as u32) != (b[j] as u32);
        lemma_lex_first_diff(a, b, j0);
    }
}

/// The order is total.
pub proof fn lemma_lex_total(a: Seq<char>, b: Seq<char>)
    ensures
        lex_le(a, b) || lex_le(b, a),
{
    let m: int = if a.len() <= b.len() {
        a.len() as int
    } else {
        b.len() as int
    };
    if forall|j: int| 0 <= j < m ==> (a[j] as u32) == (b[j] as u32) {
        if a.len() <= b.len() {
            assert(lex_le(a, b));
        } else {
            assert(forall|j: int| 0 <= j < b.len() ==> (b[j] as u32) == (a[j] as u32));
            assert(lex_le(b, a));
        }
    } else {
        let w = choose|j: int| 0 <= j < m && (a[j] as u32) != (b[j] as u32);
        lemma_lex_first_diff(a, b, w);
        let i = choose|i: int|
            0 <= i < a.len() && i < b.len() && (a[i] as u32) != (b[i] as u32) && (forall|j: int|
                0 <= j < i ==> (a[j] as u32) == (b[j] as u32));
        if (a[i] as u32) < (b[i] as u32) {
            assert(lex_le(a, b));
        } else {
            assert((b[i] as u32) < (a[i] as u32));
            assert(forall|j: int| 0 <= j < i ==> (b[j] as u32) == (a[j] as u32));
            assert(lex_le(b, a));
        }
    }
}

/// The order is transitive.
pub proof fn lemma_lex_trans(a: Seq<char>, b: Seq<char>, c: Seq<char>)
    requires
        lex_le(a, b),
        lex_le(b, c),
    ensures
        lex_le(a, c),
{
    let prefix_ab = a.len() <= b.len() && (forall|j: int|
        0 <= j < a.len() ==> (a[j] as u32) == (b[j] as u32));
    let prefix_bc = b.len() <= c.len() && (forall|j: int|
        0 <= j < b.len() ==> (b[j] as u32) == (c[j] as u32));
    if prefix_ab && prefix_bc {
        assert(forall|j: int| 0 <= j < a.len() ==> (a[j] as u32) == (c[j] as u32));
        assert(lex_le(a, c));
    } else if prefix_ab {
        let i2 = choose|i: int|
            0 <= i < b.len() && i < c.len() && (b[i] as u32) < (c[i] as u32) && (forall|j: int|
                0 <= j < i ==> (b[j] as u32) == (c[j] as u32));
        if i2 < a.len() {
            assert((a[i2] as u32) < (c[i2] as u32));
            assert(forall|j: int| 0 <= j < i2 ==> (a[j] as u32) == (c[j] as u32));
            assert(lex_le(a, c));
        } else {
            assert(forall|j: int| 0 <= j < a.len() ==> (a[j] as u32) == (c[j] as u32));
            assert(a.len() <= c.len());
            assert(lex_le(a, c));
        }
    } else if prefix_bc {
        let i1 = choose|i: int|
            0 <= i < a.len() && i < b.len() && (a[i] as u32) < (b[i] as u32) && (forall|j: int|
                0 <= j < i ==> (a[j] as u32) == (b[j] as u32));
        assert((a[i1] as u32) < (c[i1] as u32));
        assert(forall|j: int| 0 <= j < i1 ==> (a[j] as u32) == (c[j] as u32));
        assert(lex_le(a, c));
    } else {
        let i1 = choose|i: int|
            0 <= i < a.len() && i < b.len() && (a[i] as u32) < (b[i] as u32) && (forall|j: int|
                0 <= j < i ==> (a[j] as u32) == (b[j] as u32));
        let i2 = choose|i: int|
            0 <= i < b.len() && i < c.len() && (b[i] as u32) < (c[i] as u32) && (forall|j: int|
                0 <= j < i ==> (b[j] as u32) == (c[j] as u32));
        if i1 < i2 {
            assert((a[i1] as u32) < (c[i1] as u32));
            assert(forall|j: int| 0 <= j < i1 ==> (a[j] as u32) == (c[j] as u32));
            assert(lex_le(a, c));
        } else if i2 < i1 {
            assert((a[i2] as u32) < (c[i2] as u32));
            assert(forall|j: int| 0 <= j < i2 ==> (a[j] as u32) == (c[j] as u32));
            assert(lex_le(a, c));
        } else {
            assert((a[i1] as u32) < (c[i1] as u32));
            assert(forall|j: int| 0 <= j < i1 ==> (a[j] as u32) == (c[j] as u32));
            assert(lex_le(a, c));
        }
    }
}

/// Whether `a` is at most `b` in the identifier order.
pub fn lex_le_exec(a: &str, b: &str) -> (r: bool)
    ensures
        r == lex_le(a@, b@),
{
    let an = a.unicode_len();
    let bn = b.unicode_len();
    let mut i: usize = 0;
    while i < an && i < bn
        invariant
            0 <= i <= an,
            i <= bn,
            an == a@.len(),
            bn == b@.len(),
            forall|j: int| 0 <= j < i ==> (a@[j] as u32) == (b@[j] as u32),
        decreases an - i,
    {
        let ca = a.get_char(i) as u32;
        let cb = b.get_char(i) as u32;
        if ca != cb {
            if ca < cb {
                assert(lex_le(a@, b@));
                return true;
            } else {
                proof {
                    assert forall|i2: int|
                        !(0 <= i2 < a@.len() && i2 < b@.len() && (a@[i2] as u32) < (b@[i2] as u32)
                            && (forall|j: int|
                            0 <= j < i2 ==> (a@[j] as u32) == (b@[j] as u32))) by {
                        if 0 <= i2 < a@.len() && i2 < b@.len() && (a@[i2] as u32) < (
                        b@[i2] as u32) && (forall|j: int|
                            0 <= j < i2 ==> (a@[j] as u32) == (b@[j] as u32)) {
                            if i2 < i as int {
                                assert((a@[i2] as u32) == (b@[i2] as u32));
                            } else {
                                assert((a@[i as int] as u32) == (b@[i as int] as u32));
                            }
                        }
                    }
                }
                return false;
            }
        }
        i = i + 1;
    }
    if an <= bn {
        assert(lex_le(a@, b@));
        true
    } else {
        proof {
            assert(i == bn);
            assert forall|i2: int|
                !(0 <= i2 < a@.len() && i2 < b@.len() && (a@[i2] as u32) < (b@[i2] as u32) && (
                forall|j: int| 0 <= j < i2 ==> (a@[j] as u32) == (b@[j] as u32))) by {
                if 0 <= i2 < a@.len() && i2 < b@.len() && (a@[i2] as u32) < (b@[i2] as u32) {
                    assert((a@[i2] as u32) == (b@[i2] as u32));
                }
            }
        }
        false
    }
}

/// The listed images stand in identifier order.
pub open spec fn sorted_by_id(ms: Seq<ImageMetadata>) -> bool {
    forall|p: int, q: int|
        0 <= p < q < ms.len() ==> lex_le(#[trigger] ms[p].id@, #[trigger] ms[q].id@)
}

/// Inserts one image into a list that is in identifier order, keeping the
/// order; the contents gain exactly that image.
pub fn insert_sorted(out: &mut Vec<ImageMetadata>, m: ImageMetadata)
    requires
        sorted_by_id(old(out)@),
    ensures
        sorted_by_id(final(out)@),
        final(out)@.to_multiset() == old(out)@.to_multiset().insert(m),
{
    let ghost pre = out@;
    let mut p: usize = 0;
    while p < out.len() && lex_le_exec(out[p].id.as_str(), m.id.as_str())
        invariant
            sorted_by_id(out@),
            out@ == pre,
            0 <= p <= out.len(),
            forall|q: int| 0 <= q < p ==> lex_le(#[trigger] out@[q].id@, m.id@),
        decreases out.len() - p,
    {
        p = p + 1;
    }
    proof {
        if (p as int) < pre.len() {
            lemma_lex_total(pre[p as int].id@, m.id@);
            assert forall|q: int| p <= q < pre.len() implies lex_le(
                m.id@,
                #[trigger] pre[q].id@,
            ) by {
                if q > p {
                    lemma_lex_trans(m.id@, pre[p as int].id@, pre[q].id@);
                }
            }
        }
    }
    let ghost gm = m;
    out.insert(p, m);
    proof {
        let post = out@;
        assert(post == pre.insert(p as int, gm));
        assert forall|p2: int, q2: int| 0 <= p2 < q2 < post.len() implies lex_le(
            #[trigger] post[p2].id@,
            #[trigger] post[q2].id@,
        ) by {
            if p2 < p && q2 < p {
                assert(post[p2] == pre[p2] && post[q2] == pre[q2]);
            } else if p2 < p && q2 == p {
                assert(post[p2] == pre[p2] && post[q2] == gm);
            } else if p2 < p && q2 > p {
                assert(post[p2] == pre[p2] && post[q2] == pre[q2 - 1]);
            } else if p2 == p {
                assert(post[p2] == gm && post[q2] == pre[q2 - 1]);
            } else {
                assert(post[p2] == pre[p2 - 1] && post[q2] == pre[q2 - 1]);
            }
        }
        assert(post.remove(p as int) =~= pre);
        assert(post[p as int] == gm);
        assert(post.to_multiset().remove(gm) =~= pre.to_multiset());
        assert(post.to_multiset().contains(gm));
        assert(post.to_multiset() =~= pre.to_multiset().insert(gm));
    }
}

/// Sorts the images into identifier order; the result holds exactly the
/// given images.
pub fn sort_images_by_id(items: Vec<ImageMetadata>) -> (r: Vec<ImageMetadata>)
    ensures
        sorted_by_id(r@),
        r@.to_multiset() == items@.to_multiset(),
{
    let ghost orig = items@;
    let mut rest = items;
    let mut out: Vec<ImageMetadata> = Vec::new();
    proof {
        assert(out@.to_multiset().add(rest@.to_multiset()) =~= orig.to_multiset());
    }
    while rest.len() > 0
        invariant
            sorted_by_id(out@),
            out@.to_multiset().add(rest@.to_multiset()) == orig.to_multiset(),
        decreases rest.len(),
    {
        let ghost pre_rest = rest@;
        let ghost pre_out = out@;
        let m = match rest.pop() {
            Some(m) => m,
            None => {
                proof {
                    assert(false);
                }
                return out;
            },
        };
        proof {
            assert(pre_rest =~= rest@.push(m));
            assert(pre_rest.to_multiset() =~= rest@.to_multiset().insert(m));
        }
        insert_sorted(&mut out, m);
        proof {
            assert(out@.to_multiset() =~= pre_out.to_multiset().insert(m));
            assert(out@.to_multiset().add(rest@.to_multiset()) =~= orig.to_multiset());
        }
    }
    proof {
        assert(rest@ =~= Seq::<ImageMetadata>::empty());
        assert(rest@.to_multiset().len() == 0);
        assert(out@.to_multiset() =~= orig.to_multiset());
    }
    out
}

} // verus!

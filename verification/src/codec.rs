use vstd::prelude::*;

use crate::models::{EntryType, EntryV, FileSystemEntry, FileSystemEntryV, GlobalConfig, GlobalConfigV, Package, PackageV, PluginInfo, PluginInfoV, PluginType, PluginTypeV};

verus! {

// ---------------------------------------------------------------------------
// A deterministic text codec for the library's records.
//
// Records are persisted as structured text built from two primitives:
//   - a number is its decimal digits followed by `:`;
//   - a string is its length as a number followed by exactly that many
//     characters (no escaping is ever needed).
// Composite values concatenate their parts behind a variant tag character.
// Serialization and parsing are both verified, and parsing a serialized
// record is proved to give back the original value.
// ---------------------------------------------------------------------------

pub open spec fn is_digit(c: char) -> bool {
    '0' <= c <= '9'
}

pub open spec fn digit_char(d: nat) -> char {
    if d == 0 {
        '0'
    } else if d == 1 {
        '1'
    } else if d == 2 {
        '2'
    } else if d == 3 {
        '3'
    } else if d == 4 {
        '4'
    } else if d == 5 {
        '5'
    } else if d == 6 {
        '6'
    } else if d == 7 {
        '7'
    } else if d == 8 {
        '8'
    } else {
        '9'
    }
}

pub open spec fn digit_val(c: char) -> nat {
    if c == '0' {
        0
    } else if c == '1' {
        1
    } else if c == '2' {
        2
    } else if c == '3' {
        3
    } else if c == '4' {
        4
    } else if c == '5' {
        5
    } else if c == '6' {
        6
    } else if c == '7' {
        7
    } else if c == '8' {
        8
    } else {
        9
    }
}

pub open spec fn dec_digits(n: nat) -> Seq<char>
    decreases n,
{
    if n < 10 {
        seq![digit_char(n)]
    } else {
        dec_digits(n / 10) + seq![digit_char(n % 10)]
    }
}

pub open spec fn ser_num(n: nat) -> Seq<char> {
    dec_digits(n) + seq![':']
}

pub open spec fn ser_str(s: Seq<char>) -> Seq<char> {
    ser_num(s.len()) + s
}

/// Value of a run of decimal digits.
pub open spec fn digits_value(s: Seq<char>) -> nat
    decreases s.len(),
{
    if s.len() == 0 {
        0
    } else {
        digits_value(s.drop_last()) * 10 + digit_val(s.last())
    }
}

/// Length of the digit run starting at `i`.
pub open spec fn digit_run_len(s: Seq<char>, i: int) -> int
    decreases s.len() - i,
{
    if i < 0 || i >= s.len() || !is_digit(s[i]) {
        0
    } else {
        1 + digit_run_len(s, i + 1)
    }
}

/// Parse a number at position `i`: a non-empty digit run, then `:`.  Values
/// that do not fit the machine's word are rejected.
pub open spec fn parse_num(s: Seq<char>, i: int) -> Option<(nat, int)> {
    let k = digit_run_len(s, i);
    if k == 0 {
        None
    } else if i + k >= s.len() || s[i + k] != ':' {
        None
    } else {
        let v = digits_value(s.subrange(i, i + k));
        if v <= usize::MAX as nat {
            Some((v, i + k + 1))
        } else {
            None
        }
    }
}

/// Parse a string token at position `i`.
pub open spec fn parse_str(s: Seq<char>, i: int) -> Option<(Seq<char>, int)> {
    match parse_num(s, i) {
        None => None,
        Some((n, j)) => if j + n <= s.len() {
            Some((s.subrange(j, j + n as int), j + n as int))
        } else {
            None
        },
    }
}

// ---------------------------------------------------------------------------
// Facts about digit runs and their values.
// ---------------------------------------------------------------------------

pub proof fn lemma_dec_digits_are_digits(n: nat)
    ensures
        dec_digits(n).len() >= 1,
        forall|i: int| 0 <= i < dec_digits(n).len() ==> is_digit(#[trigger] dec_digits(n)[i]),
    decreases n,
{
    if n >= 10 {
        lemma_dec_digits_are_digits(n / 10);
        assert forall|i: int| 0 <= i < dec_digits(n).len() implies is_digit(
            #[trigger] dec_digits(n)[i],
        ) by {
            if i < dec_digits(n / 10).len() {
                assert(dec_digits(n)[i] == dec_digits(n / 10)[i]);
            }
        }
    }
}

pub proof fn lemma_digits_value_of_dec(n: nat)
    ensures
        digits_value(dec_digits(n)) == n,
    decreases n,
{
    if n < 10 {
        assert(dec_digits(n) == seq![digit_char(n)]);
        assert(dec_digits(n).drop_last() =~= Seq::<char>::empty());
        assert(digit_val(digit_char(n)) == n);
        assert(dec_digits(n).last() == digit_char(n));
        assert(digits_value(dec_digits(n)) == digits_value(dec_digits(n).drop_last()) * 10
            + digit_val(dec_digits(n).last()));
        assert(digits_value(dec_digits(n).drop_last()) == 0);
    } else {
        lemma_digits_value_of_dec(n / 10);
        assert(dec_digits(n).drop_last() =~= dec_digits(n / 10));
        assert(dec_digits(n).last() == digit_char(n % 10));
        assert(digit_val(digit_char(n % 10)) == n % 10);
        assert(digits_value(dec_digits(n)) == digits_value(dec_digits(n).drop_last()) * 10
            + digit_val(dec_digits(n).last()));
        assert(digits_value(dec_digits(n)) == (n / 10) * 10 + n % 10);
        assert((n / 10) * 10 + n % 10 == n) by (nonlinear_arith);
    }
}

/// A digit run is exactly the digits up to the first non-digit.
pub proof fn lemma_digit_run_at(s: Seq<char>, i: int, k: int)
    requires
        0 <= i,
        0 <= k,
        i + k <= s.len(),
        forall|j: int| i <= j < i + k ==> is_digit(#[trigger] s[j]),
        i + k == s.len() || !is_digit(s[i + k]),
    ensures
        digit_run_len(s, i) == k,
    decreases k,
{
    if k == 0 {
    } else {
        lemma_digit_run_at(s, i + 1, k - 1);
    }
}

/// Wherever positions `i .. i + m` hold digits, the digit run from `i` has at
/// least `m` characters.
pub proof fn lemma_digit_run_min(s: Seq<char>, i: int, m: int)
    requires
        0 <= i,
        0 <= m,
        i + m <= s.len(),
        forall|j: int| i <= j < i + m ==> is_digit(#[trigger] s[j]),
    ensures
        digit_run_len(s, i) >= m,
    decreases m,
{
    if m > 0 {
        assert(is_digit(s[i]));
        lemma_digit_run_min(s, i + 1, m - 1);
        assert(digit_run_len(s, i) == 1 + digit_run_len(s, i + 1));
    } else {
        lemma_digit_run_nonneg(s, i);
    }
}

/// A longer digit string has at least the value of any of its prefixes.
pub proof fn lemma_digits_value_prefix(s: Seq<char>, m: int)
    requires
        0 <= m <= s.len(),
    ensures
        digits_value(s.take(m)) <= digits_value(s),
    decreases s.len() - m,
{
    if m < s.len() {
        lemma_digits_value_prefix(s, m + 1);
        let t = s.take(m + 1);
        assert(t.drop_last() =~= s.take(m));
        assert(digits_value(s.take(m + 1)) == digits_value(s.take(m)) * 10 + digit_val(t.last()));
    } else {
        assert(s.take(m) =~= s);
    }
}

// ---------------------------------------------------------------------------
// Round trips for the primitives.
// ---------------------------------------------------------------------------

pub proof fn lemma_parse_num(n: nat, pre: Seq<char>, post: Seq<char>)
    requires
        n <= usize::MAX as nat,
    ensures
        parse_num(pre + ser_num(n) + post, pre.len() as int) == Some(
            (n, pre.len() + ser_num(n).len() as int),
        ),
{
    let s = pre + ser_num(n) + post;
    let i = pre.len() as int;
    let d = dec_digits(n);
    let k = d.len() as int;
    lemma_dec_digits_are_digits(n);
    assert forall|j: int| i <= j < i + k implies is_digit(#[trigger] s[j]) by {
        assert(s[j] == d[j - i]);
    }
    assert(s[i + k] == ':');
    lemma_digit_run_at(s, i, k);
    assert(s.subrange(i, i + k) =~= d);
    lemma_digits_value_of_dec(n);
}

pub proof fn lemma_parse_str(v: Seq<char>, pre: Seq<char>, post: Seq<char>)
    requires
        v.len() <= usize::MAX as nat,
    ensures
        parse_str(pre + ser_str(v) + post, pre.len() as int) == Some(
            (v, pre.len() + ser_str(v).len() as int),
        ),
{
    let s = pre + ser_str(v) + post;
    assert(s =~= pre + ser_num(v.len()) + (v + post));
    lemma_parse_num(v.len(), pre, v + post);
    let j = pre.len() + ser_num(v.len()).len();
    assert(s.subrange(j as int, j + v.len() as int) =~= v);
}

/// Parsing a number, where it succeeds, moves the position strictly forward.
pub proof fn lemma_parse_num_advances(s: Seq<char>, i: int)
    ensures
        match parse_num(s, i) {
            Some((n, j)) => i < j <= s.len(),
            None => true,
        },
{
    if parse_num(s, i) is Some {
        let k = digit_run_len(s, i);
        lemma_digit_run_nonneg(s, i);
    }
}

pub proof fn lemma_digit_run_nonneg(s: Seq<char>, i: int)
    ensures
        digit_run_len(s, i) >= 0,
        0 <= i <= s.len() ==> i + digit_run_len(s, i) <= s.len(),
    decreases s.len() - i,
{
    if !(i < 0 || i >= s.len() || !is_digit(s[i])) {
        lemma_digit_run_nonneg(s, i + 1);
    }
}

/// Parsing a string token, where it succeeds, moves the position strictly
/// forward.
pub proof fn lemma_parse_str_advances(s: Seq<char>, i: int)
    ensures
        match parse_str(s, i) {
            Some((v, j)) => i < j <= s.len() && v.len() <= usize::MAX as nat,
            None => true,
        },
{
    lemma_parse_num_advances(s, i);
    if parse_num(s, i) is Some {
        let (n, j) = parse_num(s, i)->Some_0;
    }
}

// ---------------------------------------------------------------------------
// Executable serialization of the primitives.
// ---------------------------------------------------------------------------

fn digit_str(d: usize) -> (r: &'static str)
    requires
        d < 10,
    ensures
        r@ == seq![digit_char(d as nat)],
{
    proof {
        reveal_strlit("0");
        reveal_strlit("1");
        reveal_strlit("2");
        reveal_strlit("3");
        reveal_strlit("4");
        reveal_strlit("5");
        reveal_strlit("6");
        reveal_strlit("7");
        reveal_strlit("8");
        reveal_strlit("9");
    }
    let r: &'static str = if d == 0 {
        "0"
    } else if d == 1 {
        "1"
    } else if d == 2 {
        "2"
    } else if d == 3 {
        "3"
    } else if d == 4 {
        "4"
    } else if d == 5 {
        "5"
    } else if d == 6 {
        "6"
    } else if d == 7 {
        "7"
    } else if d == 8 {
        "8"
    } else {
        "9"
    };
    proof {
        assert(r@ =~= seq![digit_char(d as nat)]);
    }
    r
}

fn push_digits(out: &mut String, n: usize)
    ensures
        final(out)@ == old(out)@ + dec_digits(n as nat),
    decreases n,
{
    if n < 10 {
        out.append(digit_str(n));
    } else {
        push_digits(out, n / 10);
        out.append(digit_str(n % 10));
        proof {
            assert(final(out)@ =~= old(out)@ + dec_digits(n as nat));
        }
    }
}

pub fn push_num(out: &mut String, n: usize)
    ensures
        final(out)@ == old(out)@ + ser_num(n as nat),
{
    push_digits(out, n);
    out.append(":");
    proof {
        reveal_strlit(":");
        assert(":"@ =~= seq![':']);
        assert(final(out)@ =~= old(out)@ + ser_num(n as nat));
    }
}

pub fn push_str_token(out: &mut String, s: &str)
    ensures
        final(out)@ == old(out)@ + ser_str(s@),
{
    let l = s.unicode_len();
    push_num(out, l);
    out.append(s);
    proof {
        assert(final(out)@ =~= old(out)@ + ser_str(s@));
    }
}

// ---------------------------------------------------------------------------
// Executable parsing of the primitives.
// ---------------------------------------------------------------------------

fn char_digit(c: char) -> (r: usize)
    requires
        is_digit(c),
    ensures
        r as nat == digit_val(c),
        r < 10,
{
    if c == '0' {
        0
    } else if c == '1' {
        1
    } else if c == '2' {
        2
    } else if c == '3' {
        3
    } else if c == '4' {
        4
    } else if c == '5' {
        5
    } else if c == '6' {
        6
    } else if c == '7' {
        7
    } else if c == '8' {
        8
    } else {
        9
    }
}

#[verifier::loop_isolation(false)]
pub fn parse_num_exec(s: &str, i: usize) -> (r: Option<(usize, usize)>)
    ensures
        match r {
            Some((v, j)) => parse_num(s@, i as int) == Some((v as nat, j as int)),
            None => parse_num(s@, i as int) is None,
        },
{
    let n = s.unicode_len();
    if i >= n {
        return None;
    }
    let mut j = i;
    let mut acc: usize = 0;
    loop
        invariant
            i <= j <= n,
            forall|t: int| i <= t < j ==> is_digit(#[trigger] s@[t]),
            acc as nat == digits_value(s@.subrange(i as int, j as int)),
        decreases n - j,
    {
        if j >= n {
            // ran off the end: no `:` terminator
            proof {
                lemma_digit_run_at(s@, i as int, j - i);
            }
            return None;
        }
        let c = s.get_char(j);
        if !('0' <= c && c <= '9') {
            proof {
                lemma_digit_run_at(s@, i as int, j - i);
            }
            if j == i {
                return None;
            }
            if c != ':' {
                return None;
            }
            return Some((acc, j + 1));
        }
        let d = char_digit(c);
        let next_acc = match acc.checked_mul(10) {
            Some(x) => x.checked_add(d),
            None => None,
        };
        proof {
            assert(s@.subrange(i as int, j + 1).drop_last() =~= s@.subrange(i as int, j as int));
        }
        match next_acc {
            Some(a) => {
                acc = a;
            },
            None => {
                // the value exceeds the machine's word; the parse rejects it
                proof {
                    let ghost k = digit_run_len(s@, i as int);
                    lemma_digit_run_min(s@, i as int, j + 1 - i);
                    lemma_digit_run_nonneg(s@, i as int);
                    if parse_num(s@, i as int) is Some {
                        let full = s@.subrange(i as int, i + k);
                        assert(full.take(j + 1 - i) =~= s@.subrange(i as int, j + 1));
                        lemma_digits_value_prefix(full, j + 1 - i);
                    }
                }
                return None;
            },
        }
        j += 1;
    }
}

pub fn parse_str_token(s: &str, i: usize) -> (r: Option<(String, usize)>)
    ensures
        match r {
            Some((v, j)) => parse_str(s@, i as int) == Some((v@, j as int)),
            None => parse_str(s@, i as int) is None,
        },
{
    match parse_num_exec(s, i) {
        None => None,
        Some((n, j)) => {
            proof {
                lemma_parse_num_advances(s@, i as int);
            }
            let total = s.unicode_len();
            if n > total - j {
                return None;
            }
            let v = s.substring_char(j, j + n).to_owned();
            Some((v, j + n))
        },
    }
}

// ---------------------------------------------------------------------------
// Entry trees.
//
// `V` tags a scalar, `O` an ordered mapping (count, then key/entry pairs),
// `A` an ordered list (count, then entries).
// ---------------------------------------------------------------------------

pub open spec fn ser_entry(e: EntryV) -> Seq<char>
    decreases e,
{
    match e {
        EntryV::Value(s) => seq!['V'] + ser_str(s),
        EntryV::Object(fields) => seq!['O'] + ser_num(fields.len()) + ser_entry_pairs(fields),
        EntryV::Array(items) => seq!['A'] + ser_num(items.len()) + ser_entry_list(items),
    }
}

pub open spec fn ser_entry_pairs(fields: Seq<(Seq<char>, EntryV)>) -> Seq<char>
    decreases fields,
{
    if fields.len() == 0 {
        Seq::empty()
    } else {
        ser_str(fields[0].0) + ser_entry(fields[0].1) + ser_entry_pairs(fields.drop_first())
    }
}

pub open spec fn ser_entry_list(items: Seq<EntryV>) -> Seq<char>
    decreases items,
{
    if items.len() == 0 {
        Seq::empty()
    } else {
        ser_entry(items[0]) + ser_entry_list(items.drop_first())
    }
}

pub open spec fn parse_entry(s: Seq<char>, i: int) -> Option<(EntryV, int)>
    decreases s.len() - i, 0int,
{
    if i < 0 || i >= s.len() {
        None
    } else if s[i] == 'V' {
        match parse_str(s, i + 1) {
            None => None,
            Some((v, j)) => Some((EntryV::Value(v), j)),
        }
    } else if s[i] == 'O' {
        match parse_num(s, i + 1) {
            None => None,
            Some((n, j)) => if i + 1 < j <= s.len() {
                match parse_entry_pairs(s, j, n) {
                    None => None,
                    Some((fields, j2)) => Some((EntryV::Object(fields), j2)),
                }
            } else {
                None
            },
        }
    } else if s[i] == 'A' {
        match parse_num(s, i + 1) {
            None => None,
            Some((n, j)) => if i + 1 < j <= s.len() {
                match parse_entry_list(s, j, n) {
                    None => None,
                    Some((items, j2)) => Some((EntryV::Array(items), j2)),
                }
            } else {
                None
            },
        }
    } else {
        None
    }
}

pub open spec fn parse_entry_pairs(s: Seq<char>, i: int, n: nat) -> Option<
    (Seq<(Seq<char>, EntryV)>, int),
>
    decreases s.len() - i, n,
{
    if n == 0 {
        Some((Seq::empty(), i))
    } else {
        match parse_str(s, i) {
            None => None,
            Some((k, j)) => if i < j <= s.len() {
                match parse_entry(s, j) {
                    None => None,
                    Some((v, j2)) => if j < j2 <= s.len() {
                        match parse_entry_pairs(s, j2, (n - 1) as nat) {
                            None => None,
                            Some((rest, j3)) => Some((seq![(k, v)] + rest, j3)),
                        }
                    } else {
                        None
                    },
                }
            } else {
                None
            },
        }
    }
}

pub open spec fn parse_entry_list(s: Seq<char>, i: int, n: nat) -> Option<(Seq<EntryV>, int)>
    decreases s.len() - i, n,
{
    if n == 0 {
        Some((Seq::empty(), i))
    } else {
        match parse_entry(s, i) {
            None => None,
            Some((v, j)) => if i < j <= s.len() {
                match parse_entry_list(s, j, (n - 1) as nat) {
                    None => None,
                    Some((rest, j2)) => Some((seq![v] + rest, j2)),
                }
            } else {
                None
            },
        }
    }
}

/// Where parsing an entry succeeds it moves the position strictly forward.
pub proof fn lemma_parse_entry_advances(s: Seq<char>, i: int)
    ensures
        match parse_entry(s, i) {
            Some((e, j)) => i < j <= s.len(),
            None => true,
        },
{
    if 0 <= i < s.len() {
        lemma_parse_str_advances(s, i + 1);
        lemma_parse_num_advances(s, i + 1);
        if s[i] == 'O' || s[i] == 'A' {
            if parse_num(s, i + 1) is Some {
                let (n, j) = parse_num(s, i + 1)->Some_0;
                if i + 1 < j <= s.len() {
                    lemma_parse_entry_pairs_bounds(s, j, n);
                    lemma_parse_entry_list_bounds(s, j, n);
                }
            }
        }
    }
}

pub proof fn lemma_parse_entry_pairs_bounds(s: Seq<char>, i: int, n: nat)
    ensures
        match parse_entry_pairs(s, i, n) {
            Some((fields, j)) => i <= j && fields.len() == n && (n > 0 ==> j <= s.len()),
            None => true,
        },
    decreases s.len() - i, n,
{
    if n != 0 {
        lemma_parse_str_advances(s, i);
        if parse_str(s, i) is Some {
            let (k, j) = parse_str(s, i)->Some_0;
            if i < j <= s.len() {
                if parse_entry(s, j) is Some {
                    let (v, j2) = parse_entry(s, j)->Some_0;
                    if j < j2 <= s.len() {
                        lemma_parse_entry_pairs_bounds(s, j2, (n - 1) as nat);
                    }
                }
            }
        }
    }
}

pub proof fn lemma_parse_entry_list_bounds(s: Seq<char>, i: int, n: nat)
    ensures
        match parse_entry_list(s, i, n) {
            Some((items, j)) => i <= j && items.len() == n && (n > 0 ==> j <= s.len()),
            None => true,
        },
    decreases s.len() - i, n,
{
    if n != 0 {
        if parse_entry(s, i) is Some {
            let (v, j) = parse_entry(s, i)->Some_0;
            if i < j <= s.len() {
                lemma_parse_entry_list_bounds(s, j, (n - 1) as nat);
            }
        }
    }
}

// ---------------------------------------------------------------------------
// Boundedness: every length that the codec writes fits the machine's word.
// ---------------------------------------------------------------------------

pub open spec fn entry_bounded(e: EntryV) -> bool
    decreases e,
{
    match e {
        EntryV::Value(s) => s.len() <= usize::MAX as nat,
        EntryV::Object(fields) => fields.len() <= usize::MAX as nat && forall|i: int|
            0 <= i < fields.len() ==> (#[trigger] fields[i]).0.len() <= usize::MAX as nat
                && entry_bounded(fields[i].1),
        EntryV::Array(items) => items.len() <= usize::MAX as nat && forall|i: int|
            0 <= i < items.len() ==> entry_bounded(#[trigger] items[i]),
    }
}

// ---------------------------------------------------------------------------
// Round trip: parsing a serialized entry gives the entry back.
// ---------------------------------------------------------------------------

#[verifier::rlimit(100)]
#[verifier::spinoff_prover]
pub proof fn lemma_parse_ser_entry(e: EntryV, pre: Seq<char>, post: Seq<char>)
    requires
        entry_bounded(e),
    ensures
        parse_entry(pre + ser_entry(e) + post, pre.len() as int) == Some(
            (e, pre.len() + ser_entry(e).len() as int),
        ),
    decreases e,
{
    let s = pre + ser_entry(e) + post;
    let i = pre.len() as int;
    match e {
        EntryV::Value(v) => {
            assert(s[i] == 'V');
            assert(s =~= (pre + seq!['V']) + ser_str(v) + post);
            lemma_parse_str(v, pre + seq!['V'], post);
        },
        EntryV::Object(fields) => {
            assert(s[i] == 'O');
            let n = fields.len();
            let pre2 = pre + seq!['O'];
            let post2 = ser_entry_pairs(fields) + post;
            assert(s =~= pre2 + ser_num(n) + post2);
            lemma_parse_num(n, pre2, post2);
            let j = pre2.len() + ser_num(n).len() as int;
            lemma_dec_digits_are_digits(n);
            let pre3 = pre2 + ser_num(n);
            assert(s =~= pre3 + ser_entry_pairs(fields) + post);
            lemma_parse_ser_entry_pairs(fields, pre3, post);
        },
        EntryV::Array(items) => {
            assert(s[i] == 'A');
            let n = items.len();
            let pre2 = pre + seq!['A'];
            let post2 = ser_entry_list(items) + post;
            assert(s =~= pre2 + ser_num(n) + post2);
            lemma_parse_num(n, pre2, post2);
            let pre3 = pre2 + ser_num(n);
            assert(s =~= pre3 + ser_entry_list(items) + post);
            lemma_parse_ser_entry_list(items, pre3, post);
            lemma_dec_digits_are_digits(n);
        },
    }
}

pub proof fn lemma_parse_ser_entry_pairs(fields: Seq<(Seq<char>, EntryV)>, pre: Seq<char>, post: Seq<
    char,
>)
    requires
        fields.len() <= usize::MAX as nat,
        forall|i: int|
            0 <= i < fields.len() ==> (#[trigger] fields[i]).0.len() <= usize::MAX as nat
                && entry_bounded(fields[i].1),
    ensures
        parse_entry_pairs(pre + ser_entry_pairs(fields) + post, pre.len() as int, fields.len())
            == Some((fields, pre.len() + ser_entry_pairs(fields).len() as int)),
    decreases fields,
{
    let s = pre + ser_entry_pairs(fields) + post;
    let i = pre.len() as int;
    if fields.len() == 0 {
        assert(fields =~= Seq::<(Seq<char>, EntryV)>::empty());
    } else {
        let k0 = fields[0].0;
        let v0 = fields[0].1;
        let rest = fields.drop_first();
        assert(s =~= pre + ser_str(k0) + (ser_entry(v0) + ser_entry_pairs(rest) + post));
        lemma_parse_str(k0, pre, ser_entry(v0) + ser_entry_pairs(rest) + post);
        let j = pre.len() + ser_str(k0).len() as int;
        lemma_dec_digits_are_digits(k0.len());
        let pre2 = pre + ser_str(k0);
        assert(s =~= pre2 + ser_entry(v0) + (ser_entry_pairs(rest) + post));
        lemma_parse_ser_entry(v0, pre2, ser_entry_pairs(rest) + post);
        let j2 = pre2.len() + ser_entry(v0).len() as int;
        lemma_parse_entry_advances(s, j);
        let pre3 = pre2 + ser_entry(v0);
        assert(s =~= pre3 + ser_entry_pairs(rest) + post);
        lemma_parse_ser_entry_pairs(rest, pre3, post);
        assert(seq![(k0, v0)] + rest =~= fields);
    }
}

pub proof fn lemma_parse_ser_entry_list(items: Seq<EntryV>, pre: Seq<char>, post: Seq<char>)
    requires
        items.len() <= usize::MAX as nat,
        forall|i: int| 0 <= i < items.len() ==> entry_bounded(#[trigger] items[i]),
    ensures
        parse_entry_list(pre + ser_entry_list(items) + post, pre.len() as int, items.len())
            == Some((items, pre.len() + ser_entry_list(items).len() as int)),
    decreases items,
{
    let s = pre + ser_entry_list(items) + post;
    let i = pre.len() as int;
    if items.len() == 0 {
        assert(items =~= Seq::<EntryV>::empty());
    } else {
        let v0 = items[0];
        let rest = items.drop_first();
        assert(s =~= pre + ser_entry(v0) + (ser_entry_list(rest) + post));
        lemma_parse_ser_entry(v0, pre, ser_entry_list(rest) + post);
        let j = pre.len() + ser_entry(v0).len() as int;
        lemma_parse_entry_advances(s, i);
        let pre2 = pre + ser_entry(v0);
        assert(s =~= pre2 + ser_entry_list(rest) + post);
        lemma_parse_ser_entry_list(rest, pre2, post);
        assert(seq![v0] + rest =~= items);
    }
}

// ---------------------------------------------------------------------------
// Executable serialization of entry trees.
// ---------------------------------------------------------------------------

proof fn lemma_ser_entry_pairs_snoc(a: Seq<(Seq<char>, EntryV)>, x: (Seq<char>, EntryV))
    ensures
        ser_entry_pairs(a + seq![x]) == ser_entry_pairs(a) + ser_str(x.0) + ser_entry(x.1),
    decreases a,
{
    if a.len() == 0 {
        assert(a + seq![x] =~= seq![x]);
        assert(ser_entry_pairs(seq![x]) == ser_str(x.0) + ser_entry(x.1) + ser_entry_pairs(
            seq![x].drop_first(),
        ));
        assert(seq![x].drop_first() =~= Seq::<(Seq<char>, EntryV)>::empty());
        assert(ser_entry_pairs(a + seq![x]) =~= ser_entry_pairs(a) + ser_str(x.0) + ser_entry(
            x.1,
        ));
    } else {
        assert((a + seq![x]).drop_first() =~= a.drop_first() + seq![x]);
        lemma_ser_entry_pairs_snoc(a.drop_first(), x);
        assert((a + seq![x])[0] == a[0]);
        assert(ser_entry_pairs(a + seq![x]) =~= ser_entry_pairs(a) + ser_str(x.0) + ser_entry(
            x.1,
        ));
    }
}

proof fn lemma_ser_entry_list_snoc(a: Seq<EntryV>, x: EntryV)
    ensures
        ser_entry_list(a + seq![x]) == ser_entry_list(a) + ser_entry(x),
    decreases a,
{
    if a.len() == 0 {
        assert(a + seq![x] =~= seq![x]);
        assert(ser_entry_list(seq![x]) == ser_entry(seq![x][0]) + ser_entry_list(
            seq![x].drop_first(),
        ));
        assert(seq![x].drop_first() =~= Seq::<EntryV>::empty());
        assert(ser_entry_list(a + seq![x]) =~= ser_entry_list(a) + ser_entry(x));
    } else {
        assert((a + seq![x]).drop_first() =~= a.drop_first() + seq![x]);
        lemma_ser_entry_list_snoc(a.drop_first(), x);
        assert((a + seq![x])[0] == a[0]);
        assert(ser_entry_list(a + seq![x]) =~= ser_entry_list(a) + ser_entry(x));
    }
}

/// Serialize an entry tree to its text form.
#[verifier::loop_isolation(false)]
pub fn ser_entry_exec(e: &EntryType) -> (r: String)
    ensures
        r@ == ser_entry(e@),
    decreases e,
{
    proof {
        reveal_strlit("V");
        reveal_strlit("O");
        reveal_strlit("A");
    }
    match e {
        EntryType::Value(s) => {
            let mut out = String::from_str("V");
            push_str_token(&mut out, s.as_str());
            proof {
                assert(out@ =~= ser_entry(e@));
            }
            out
        },
        EntryType::Object(fields) => {
            let ghost fv = crate::models::entry_pairs_view(fields@);
            proof {
                crate::models::lemma_entry_pairs_view_len(fields@);
            }
            let mut out = String::from_str("O");
            push_num(&mut out, fields.len());
            proof {
                assert(out@ =~= seq!['O'] + ser_num(fields@.len() as nat));
                assert(fv.take(0) =~= Seq::<(Seq<char>, EntryV)>::empty());
            }
            let mut i: usize = 0;
            while i < fields.len()
                invariant
                    i <= fields.len(),
                    out@ == seq!['O'] + ser_num(fields@.len() as nat) + ser_entry_pairs(
                        fv.take(i as int),
                    ),
                decreases fields.len() - i,
            {
                proof {
                    assert(decreases_to!(*e => *fields));
                    assert(decreases_to!(*fields => fields@[i as int]));
                    assert(decreases_to!(fields@[i as int] => fields@[i as int].1));
                }
                push_str_token(&mut out, fields[i].0.as_str());
                let sub = ser_entry_exec(&fields[i].1);
                out.append(sub.as_str());
                proof {
                    assert(fv.take(i + 1) =~= fv.take(i as int) + seq![fv[i as int]]);
                    lemma_ser_entry_pairs_snoc(fv.take(i as int), fv[i as int]);
                    assert(out@ =~= seq!['O'] + ser_num(fields@.len() as nat) + ser_entry_pairs(
                        fv.take(i + 1),
                    ));
                }
                i += 1;
            }
            proof {
                assert(fv.take(fields@.len() as int) =~= fv);
            }
            out
        },
        EntryType::Array(items) => {
            let ghost iv = crate::models::entries_view(items@);
            proof {
                crate::models::lemma_entries_view_len(items@);
            }
            let mut out = String::from_str("A");
            push_num(&mut out, items.len());
            proof {
                assert(out@ =~= seq!['A'] + ser_num(items@.len() as nat));
                assert(iv.take(0) =~= Seq::<EntryV>::empty());
            }
            let mut i: usize = 0;
            while i < items.len()
                invariant
                    i <= items.len(),
                    out@ == seq!['A'] + ser_num(items@.len() as nat) + ser_entry_list(
                        iv.take(i as int),
                    ),
                decreases items.len() - i,
            {
                proof {
                    assert(decreases_to!(*e => *items));
                    assert(decreases_to!(*items => items@[i as int]));
                }
                let sub = ser_entry_exec(&items[i]);
                out.append(sub.as_str());
                proof {
                    assert(iv.take(i + 1) =~= iv.take(i as int) + seq![iv[i as int]]);
                    lemma_ser_entry_list_snoc(iv.take(i as int), iv[i as int]);
                    assert(out@ =~= seq!['A'] + ser_num(items@.len() as nat) + ser_entry_list(
                        iv.take(i + 1),
                    ));
                }
                i += 1;
            }
            proof {
                assert(iv.take(items@.len() as int) =~= iv);
            }
            out
        },
    }
}

// ---------------------------------------------------------------------------
// Executable parsing of entry trees.
// ---------------------------------------------------------------------------

#[verifier::loop_isolation(false)]
fn parse_entry_at(s: &str, i: usize) -> (r: Option<(EntryType, usize)>)
    requires
        i as int <= s@.len(),
    ensures
        match r {
            Some((e, j)) => parse_entry(s@, i as int) == Some((e@, j as int)) && i < j <= s@.len(),
            None => parse_entry(s@, i as int) is None,
        },
    decreases s@.len() - i,
{
    let n_total = s.unicode_len();
    if i >= n_total {
        return None;
    }
    let tag = s.get_char(i);
    if tag == 'V' {
        match parse_str_token(s, i + 1) {
            None => None,
            Some((v, j)) => {
                proof {
                    lemma_parse_str_advances(s@, i + 1);
                }
                Some((EntryType::Value(v), j))
            },
        }
    } else if tag == 'O' {
        match parse_num_exec(s, i + 1) {
            None => None,
            Some((n, j)) => {
                proof {
                    lemma_parse_num_advances(s@, i + 1);
                }
                let ghost start = j;
                let mut out: Vec<(String, EntryType)> = Vec::new();
                let mut cur = j;
                let mut rem = n;
                proof {
                    crate::models::lemma_entry_pairs_view_len(out@);
                    assert(crate::models::entry_pairs_view(out@) =~= Seq::<
                        (Seq<char>, EntryV),
                    >::empty());
                }
                loop
                    invariant
                        j <= cur <= s@.len(),
                        rem <= n,
                        match parse_entry_pairs(s@, cur as int, rem as nat) {
                            None => parse_entry_pairs(s@, start as int, n as nat) is None,
                            Some((rest, jj)) => parse_entry_pairs(s@, start as int, n as nat)
                                == Some(
                                (crate::models::entry_pairs_view(out@) + rest, jj),
                            ),
                        },
                    decreases rem,
                {
                    if rem == 0 {
                        break ;
                    }
                    match parse_str_token(s, cur) {
                        None => {
                            return None;
                        },
                        Some((k, j1)) => {
                            proof {
                                lemma_parse_str_advances(s@, cur as int);
                            }
                            match parse_entry_at(s, j1) {
                                None => {
                                    return None;
                                },
                                Some((v, j2)) => {
                                    let ghost old_out = out@;
                                    let ghost kv = k@;
                                    let ghost vv = v@;
                                    out.push((k, v));
                                    proof {
                                        crate::models::lemma_entry_pairs_view_len(old_out);
                                        crate::models::lemma_entry_pairs_view_len(out@);
                                        assert(crate::models::entry_pairs_view(out@)
                                            =~= crate::models::entry_pairs_view(old_out) + seq![
                                            (kv, vv),
                                        ]);
                                        assert(crate::models::entry_pairs_view(old_out) + (seq![
                                            (kv, vv),
                                        ] + parse_entry_pairs(s@, j2 as int, (rem - 1) as nat)->Some_0.0)
                                            =~= crate::models::entry_pairs_view(out@)
                                            + parse_entry_pairs(
                                            s@,
                                            j2 as int,
                                            (rem - 1) as nat,
                                        )->Some_0.0) by {
                                            if parse_entry_pairs(s@, j2 as int, (rem - 1) as nat) is Some {
                                            }
                                        }
                                    }
                                    cur = j2;
                                    rem = rem - 1;
                                },
                            }
                        },
                    }
                }
                proof {
                    assert(parse_entry_pairs(s@, cur as int, 0) == Some(
                        (Seq::<(Seq<char>, EntryV)>::empty(), cur as int),
                    ));
                    assert(crate::models::entry_pairs_view(out@) + Seq::<
                        (Seq<char>, EntryV),
                    >::empty() =~= crate::models::entry_pairs_view(out@));
                }
                Some((EntryType::Object(out), cur))
            },
        }
    } else if tag == 'A' {
        match parse_num_exec(s, i + 1) {
            None => None,
            Some((n, j)) => {
                proof {
                    lemma_parse_num_advances(s@, i + 1);
                }
                let ghost start = j;
                let mut out: Vec<EntryType> = Vec::new();
                let mut cur = j;
                let mut rem = n;
                proof {
                    crate::models::lemma_entries_view_len(out@);
                    assert(crate::models::entries_view(out@) =~= Seq::<EntryV>::empty());
                }
                loop
                    invariant
                        j <= cur <= s@.len(),
                        rem <= n,
                        match parse_entry_list(s@, cur as int, rem as nat) {
                            None => parse_entry_list(s@, start as int, n as nat) is None,
                            Some((rest, jj)) => parse_entry_list(s@, start as int, n as nat)
                                == Some((crate::models::entries_view(out@) + rest, jj)),
                        },
                    decreases rem,
                {
                    if rem == 0 {
                        break ;
                    }
                    match parse_entry_at(s, cur) {
                        None => {
                            return None;
                        },
                        Some((v, j2)) => {
                            let ghost old_out = out@;
                            let ghost vv = v@;
                            out.push(v);
                            proof {
                                crate::models::lemma_entries_view_len(old_out);
                                crate::models::lemma_entries_view_len(out@);
                                assert(crate::models::entries_view(out@)
                                    =~= crate::models::entries_view(old_out) + seq![vv]);
                                assert(crate::models::entries_view(old_out) + (seq![vv]
                                    + parse_entry_list(s@, j2 as int, (rem - 1) as nat)->Some_0.0)
                                    =~= crate::models::entries_view(out@) + parse_entry_list(
                                    s@,
                                    j2 as int,
                                    (rem - 1) as nat,
                                )->Some_0.0) by {
                                    if parse_entry_list(s@, j2 as int, (rem - 1) as nat) is Some {
                                    }
                                }
                            }
                            cur = j2;
                            rem = rem - 1;
                        },
                    }
                }
                proof {
                    assert(parse_entry_list(s@, cur as int, 0) == Some(
                        (Seq::<EntryV>::empty(), cur as int),
                    ));
                    assert(crate::models::entries_view(out@) + Seq::<EntryV>::empty()
                        =~= crate::models::entries_view(out@));
                }
                Some((EntryType::Array(out), cur))
            },
        }
    } else {
        None
    }
}

/// A whole text parses as one entry tree exactly when `parse_entry` consumes
/// all of it.
pub open spec fn parse_entry_full(s: Seq<char>) -> Option<EntryV> {
    match parse_entry(s, 0) {
        Some((e, j)) => if j == s.len() {
            Some(e)
        } else {
            None
        },
        None => None,
    }
}

/// Parse a whole text as one entry tree.
pub fn entry_from_text(s: &str) -> (r: Option<EntryType>)
    ensures
        match r {
            Some(e) => parse_entry_full(s@) == Some(e@),
            None => parse_entry_full(s@) is None,
        },
{
    match parse_entry_at(s, 0) {
        None => None,
        Some((e, j)) => {
            let n = s.unicode_len();
            if j == n {
                Some(e)
            } else {
                None
            }
        },
    }
}

/// Round trip: parsing a serialized entry tree gives back the original tree,
/// variant, key order and list order included.
pub proof fn lemma_entry_round_trip(e: EntryV)
    requires
        entry_bounded(e),
    ensures
        parse_entry_full(ser_entry(e)) == Some(e),
{
    lemma_parse_ser_entry(e, Seq::empty(), Seq::empty());
    assert(Seq::empty() + ser_entry(e) + Seq::empty() =~= ser_entry(e));
}

// ---------------------------------------------------------------------------
// Options, string lists, booleans.
// ---------------------------------------------------------------------------

pub open spec fn ser_opt_str(o: Option<Seq<char>>) -> Seq<char> {
    match o {
        None => seq!['N'],
        Some(s) => seq!['S'] + ser_str(s),
    }
}

pub open spec fn parse_opt_str(s: Seq<char>, i: int) -> Option<(Option<Seq<char>>, int)> {
    if i < 0 || i >= s.len() {
        None
    } else if s[i] == 'N' {
        Some((None, i + 1))
    } else if s[i] == 'S' {
        match parse_str(s, i + 1) {
            None => None,
            Some((v, j)) => Some((Some(v), j)),
        }
    } else {
        None
    }
}

pub open spec fn ser_str_list(items: Seq<Seq<char>>) -> Seq<char>
    decreases items,
{
    if items.len() == 0 {
        Seq::empty()
    } else {
        ser_str(items[0]) + ser_str_list(items.drop_first())
    }
}

pub open spec fn parse_str_list(s: Seq<char>, i: int, n: nat) -> Option<(Seq<Seq<char>>, int)>
    decreases n,
{
    if n == 0 {
        Some((Seq::empty(), i))
    } else {
        match parse_str(s, i) {
            None => None,
            Some((v, j)) => match parse_str_list(s, j, (n - 1) as nat) {
                None => None,
                Some((rest, j2)) => Some((seq![v] + rest, j2)),
            },
        }
    }
}

pub open spec fn ser_opt_str_list(o: Option<Seq<Seq<char>>>) -> Seq<char> {
    match o {
        None => seq!['N'],
        Some(items) => seq!['S'] + ser_num(items.len()) + ser_str_list(items),
    }
}

pub open spec fn parse_opt_str_list(s: Seq<char>, i: int) -> Option<(Option<Seq<Seq<char>>>, int)> {
    if i < 0 || i >= s.len() {
        None
    } else if s[i] == 'N' {
        Some((None, i + 1))
    } else if s[i] == 'S' {
        match parse_num(s, i + 1) {
            None => None,
            Some((n, j)) => match parse_str_list(s, j, n) {
                None => None,
                Some((items, j2)) => Some((Some(items), j2)),
            },
        }
    } else {
        None
    }
}

pub open spec fn ser_bool(b: bool) -> Seq<char> {
    if b {
        seq!['T']
    } else {
        seq!['F']
    }
}

pub open spec fn parse_bool(s: Seq<char>, i: int) -> Option<(bool, int)> {
    if i < 0 || i >= s.len() {
        None
    } else if s[i] == 'T' {
        Some((true, i + 1))
    } else if s[i] == 'F' {
        Some((false, i + 1))
    } else {
        None
    }
}

pub proof fn lemma_parse_opt_str(o: Option<Seq<char>>, pre: Seq<char>, post: Seq<char>)
    requires
        match o {
            Some(v) => v.len() <= usize::MAX as nat,
            None => true,
        },
    ensures
        parse_opt_str(pre + ser_opt_str(o) + post, pre.len() as int) == Some(
            (o, pre.len() + ser_opt_str(o).len() as int),
        ),
{
    let s = pre + ser_opt_str(o) + post;
    match o {
        None => {
            assert(s[pre.len() as int] == 'N');
        },
        Some(v) => {
            assert(s[pre.len() as int] == 'S');
            assert(s =~= (pre + seq!['S']) + ser_str(v) + post);
            lemma_parse_str(v, pre + seq!['S'], post);
        },
    }
}

pub proof fn lemma_parse_str_list(items: Seq<Seq<char>>, pre: Seq<char>, post: Seq<char>)
    requires
        forall|i: int| 0 <= i < items.len() ==> (#[trigger] items[i]).len() <= usize::MAX as nat,
    ensures
        parse_str_list(pre + ser_str_list(items) + post, pre.len() as int, items.len()) == Some(
            (items, pre.len() + ser_str_list(items).len() as int),
        ),
    decreases items,
{
    let s = pre + ser_str_list(items) + post;
    if items.len() == 0 {
        assert(items =~= Seq::<Seq<char>>::empty());
    } else {
        let v0 = items[0];
        let rest = items.drop_first();
        assert(s =~= pre + ser_str(v0) + (ser_str_list(rest) + post));
        lemma_parse_str(v0, pre, ser_str_list(rest) + post);
        let pre2 = pre + ser_str(v0);
        assert(s =~= pre2 + ser_str_list(rest) + post);
        lemma_parse_str_list(rest, pre2, post);
        assert(seq![v0] + rest =~= items);
    }
}

pub proof fn lemma_parse_opt_str_list(o: Option<Seq<Seq<char>>>, pre: Seq<char>, post: Seq<char>)
    requires
        match o {
            Some(items) => items.len() <= usize::MAX as nat && forall|i: int|
                0 <= i < items.len() ==> (#[trigger] items[i]).len() <= usize::MAX as nat,
            None => true,
        },
    ensures
        parse_opt_str_list(pre + ser_opt_str_list(o) + post, pre.len() as int) == Some(
            (o, pre.len() + ser_opt_str_list(o).len() as int),
        ),
{
    let s = pre + ser_opt_str_list(o) + post;
    match o {
        None => {
            assert(s[pre.len() as int] == 'N');
        },
        Some(items) => {
            assert(s[pre.len() as int] == 'S');
            let pre2 = pre + seq!['S'];
            assert(s =~= pre2 + ser_num(items.len()) + (ser_str_list(items) + post));
            lemma_parse_num(items.len(), pre2, ser_str_list(items) + post);
            let pre3 = pre2 + ser_num(items.len());
            assert(s =~= pre3 + ser_str_list(items) + post);
            lemma_parse_str_list(items, pre3, post);
        },
    }
}

pub proof fn lemma_parse_bool(b: bool, pre: Seq<char>, post: Seq<char>)
    ensures
        parse_bool(pre + ser_bool(b) + post, pre.len() as int) == Some(
            (b, pre.len() + ser_bool(b).len() as int),
        ),
{
    let s = pre + ser_bool(b) + post;
    if b {
        assert(s[pre.len() as int] == 'T');
    } else {
        assert(s[pre.len() as int] == 'F');
    }
}

// ---------------------------------------------------------------------------
// Plugin types and packages.
// ---------------------------------------------------------------------------

pub open spec fn ser_plugin_type(p: PluginTypeV) -> Seq<char> {
    match p {
        PluginTypeV::Shell(c) => seq!['h'] + ser_str(c),
        PluginTypeV::Script(c) => seq!['c'] + ser_str(c),
        PluginTypeV::RustPackage { path, git, tag } => seq!['r'] + (ser_opt_str(path) + (
        ser_opt_str(git) + ser_opt_str(tag))),
    }
}

pub open spec fn parse_plugin_type(s: Seq<char>, i: int) -> Option<(PluginTypeV, int)> {
    if i < 0 || i >= s.len() {
        None
    } else if s[i] == 'h' {
        match parse_str(s, i + 1) {
            None => None,
            Some((c, j)) => Some((PluginTypeV::Shell(c), j)),
        }
    } else if s[i] == 'c' {
        match parse_str(s, i + 1) {
            None => None,
            Some((c, j)) => Some((PluginTypeV::Script(c), j)),
        }
    } else if s[i] == 'r' {
        match parse_opt_str(s, i + 1) {
            None => None,
            Some((path, j)) => match parse_opt_str(s, j) {
                None => None,
                Some((git, j2)) => match parse_opt_str(s, j2) {
                    None => None,
                    Some((tag, j3)) => Some((PluginTypeV::RustPackage { path, git, tag }, j3)),
                },
            },
        }
    } else {
        None
    }
}

pub open spec fn opt_str_bounded(o: Option<Seq<char>>) -> bool {
    match o {
        Some(v) => v.len() <= usize::MAX as nat,
        None => true,
    }
}

pub open spec fn opt_str_list_bounded(o: Option<Seq<Seq<char>>>) -> bool {
    match o {
        Some(items) => items.len() <= usize::MAX as nat && forall|i: int|
            0 <= i < items.len() ==> (#[trigger] items[i]).len() <= usize::MAX as nat,
        None => true,
    }
}

pub open spec fn plugin_type_bounded(p: PluginTypeV) -> bool {
    match p {
        PluginTypeV::Shell(c) => c.len() <= usize::MAX as nat,
        PluginTypeV::Script(c) => c.len() <= usize::MAX as nat,
        PluginTypeV::RustPackage { path, git, tag } => opt_str_bounded(path) && opt_str_bounded(git)
            && opt_str_bounded(tag),
    }
}

#[verifier::rlimit(100)]
#[verifier::spinoff_prover]
pub proof fn lemma_parse_plugin_type(p: PluginTypeV, pre: Seq<char>, post: Seq<char>)
    requires
        plugin_type_bounded(p),
    ensures
        parse_plugin_type(pre + ser_plugin_type(p) + post, pre.len() as int) == Some(
            (p, pre.len() + ser_plugin_type(p).len() as int),
        ),
{
    let s = pre + ser_plugin_type(p) + post;
    match p {
        PluginTypeV::Shell(c) => {
            assert(s[pre.len() as int] == 'h');
            assert(s =~= (pre + seq!['h']) + ser_str(c) + post);
            lemma_parse_str(c, pre + seq!['h'], post);
        },
        PluginTypeV::Script(c) => {
            assert(s[pre.len() as int] == 'c');
            assert(s =~= (pre + seq!['c']) + ser_str(c) + post);
            lemma_parse_str(c, pre + seq!['c'], post);
        },
        PluginTypeV::RustPackage { path, git, tag } => {
            assert(s[pre.len() as int] == 'r');
            let a = ser_opt_str(path);
            let b = ser_opt_str(git);
            let c = ser_opt_str(tag);
            let pre1 = pre + seq!['r'];
            lemma_assoc(pre, seq!['r'], a + (b + c));
            lemma_assoc(pre1, a + (b + c), post);
            lemma_assoc(a, b + c, post);
            lemma_assoc(b, c, post);
            lemma_assoc(pre1, a, b + (c + post));
            assert(s == pre1 + a + (b + (c + post)));
            lemma_parse_opt_str(path, pre1, b + (c + post));
            let pre2 = pre1 + a;
            lemma_assoc(pre2, b, c + post);
            assert(s == pre2 + b + (c + post));
            lemma_parse_opt_str(git, pre2, c + post);
            let pre3 = pre2 + b;
            assert(s == pre3 + c + post);
            lemma_parse_opt_str(tag, pre3, post);
        },
    }
}

pub open spec fn ser_package(p: PackageV) -> Seq<char> {
    ser_str(p.author) + ser_package_r1(p)
}

pub open spec fn ser_package_r1(p: PackageV) -> Seq<char> {
    ser_str(p.version) + ser_package_r2(p)
}

pub open spec fn ser_package_r2(p: PackageV) -> Seq<char> {
    ser_opt_str(p.help) + ser_package_r3(p)
}

pub open spec fn ser_package_r3(p: PackageV) -> Seq<char> {
    ser_opt_str_list(p.internal_dependencies) + ser_package_r4(p)
}

pub open spec fn ser_package_r4(p: PackageV) -> Seq<char> {
    ser_opt_str_list(p.external_dependencies) + ser_plugin_type(p.plugin_type)
}

pub open spec fn parse_package(s: Seq<char>, i: int) -> Option<(PackageV, int)> {
    match parse_str(s, i) {
        None => None,
        Some((author, j1)) => match parse_str(s, j1) {
            None => None,
            Some((version, j2)) => match parse_opt_str(s, j2) {
                None => None,
                Some((help, j3)) => match parse_opt_str_list(s, j3) {
                    None => None,
                    Some((internal, j4)) => match parse_opt_str_list(s, j4) {
                        None => None,
                        Some((external, j5)) => match parse_plugin_type(s, j5) {
                            None => None,
                            Some((pt, j6)) => Some(
                                (
                                    PackageV {
                                        author,
                                        version,
                                        help,
                                        internal_dependencies: internal,
                                        external_dependencies: external,
                                        plugin_type: pt,
                                    },
                                    j6,
                                ),
                            ),
                        },
                    },
                },
            },
        },
    }
}

pub open spec fn package_bounded(p: PackageV) -> bool {
    p.author.len() <= usize::MAX as nat && p.version.len() <= usize::MAX as nat && opt_str_bounded(
        p.help,
    ) && opt_str_list_bounded(p.internal_dependencies) && opt_str_list_bounded(
        p.external_dependencies,
    ) && plugin_type_bounded(p.plugin_type)
}

proof fn lemma_assoc(x: Seq<char>, y: Seq<char>, z: Seq<char>)
    ensures
        x + (y + z) == (x + y) + z,
{
    assert(x + (y + z) =~= (x + y) + z);
}

#[verifier::rlimit(100)]
#[verifier::spinoff_prover]
pub proof fn lemma_parse_package(p: PackageV, pre: Seq<char>, post: Seq<char>)
    requires
        package_bounded(p),
    ensures
        parse_package(pre + ser_package(p) + post, pre.len() as int) == Some(
            (p, pre.len() + ser_package(p).len() as int),
        ),
{
    let s = pre + ser_package(p) + post;
    // peel the author
    let tail1 = ser_package_r1(p) + post;
    lemma_assoc(pre, ser_str(p.author), ser_package_r1(p));
    lemma_assoc(pre + ser_str(p.author), ser_package_r1(p), post);
    assert(s == pre + ser_str(p.author) + tail1);
    lemma_parse_str(p.author, pre, tail1);
    let pre2 = pre + ser_str(p.author);
    // peel the version
    let tail2 = ser_package_r2(p) + post;
    lemma_assoc(ser_str(p.version), ser_package_r2(p), post);
    lemma_assoc(pre2, ser_str(p.version), tail2);
    assert(s == pre2 + ser_str(p.version) + tail2);
    lemma_parse_str(p.version, pre2, tail2);
    let pre3 = pre2 + ser_str(p.version);
    // peel the help text
    let tail3 = ser_package_r3(p) + post;
    lemma_assoc(ser_opt_str(p.help), ser_package_r3(p), post);
    lemma_assoc(pre3, ser_opt_str(p.help), tail3);
    assert(s == pre3 + ser_opt_str(p.help) + tail3);
    lemma_parse_opt_str(p.help, pre3, tail3);
    let pre4 = pre3 + ser_opt_str(p.help);
    // peel the internal dependencies
    let tail4 = ser_package_r4(p) + post;
    lemma_assoc(ser_opt_str_list(p.internal_dependencies), ser_package_r4(p), post);
    lemma_assoc(pre4, ser_opt_str_list(p.internal_dependencies), tail4);
    assert(s == pre4 + ser_opt_str_list(p.internal_dependencies) + tail4);
    lemma_parse_opt_str_list(p.internal_dependencies, pre4, tail4);
    let pre5 = pre4 + ser_opt_str_list(p.internal_dependencies);
    // peel the external dependencies
    let tail5 = ser_plugin_type(p.plugin_type) + post;
    lemma_assoc(ser_opt_str_list(p.external_dependencies), ser_plugin_type(p.plugin_type), post);
    lemma_assoc(pre5, ser_opt_str_list(p.external_dependencies), tail5);
    assert(s == pre5 + ser_opt_str_list(p.external_dependencies) + tail5);
    lemma_parse_opt_str_list(p.external_dependencies, pre5, tail5);
    let pre6 = pre5 + ser_opt_str_list(p.external_dependencies);
    // the plugin type ends the record
    assert(s == pre6 + ser_plugin_type(p.plugin_type) + post);
    lemma_parse_plugin_type(p.plugin_type, pre6, post);
}

// ---------------------------------------------------------------------------
// Supporting-file trees.
// ---------------------------------------------------------------------------

pub open spec fn ser_file_entry(f: FileSystemEntryV) -> Seq<char>
    decreases f,
{
    match f {
        FileSystemEntryV::File { version, path, destination } => seq!['f'] + (ser_str(version) + (
        ser_str(path) + ser_opt_str(destination))),
        FileSystemEntryV::Directory { version, path, destination, files } => seq!['d'] + (ser_str(
            version,
        ) + (ser_str(path) + (ser_opt_str(destination) + (ser_num(files.len()) + ser_file_pairs(
            files,
        ))))),
    }
}

pub open spec fn ser_file_pairs(files: Seq<(Seq<char>, FileSystemEntryV)>) -> Seq<char>
    decreases files,
{
    if files.len() == 0 {
        Seq::empty()
    } else {
        ser_str(files[0].0) + (ser_file_entry(files[0].1) + ser_file_pairs(files.drop_first()))
    }
}

pub open spec fn parse_file_entry(s: Seq<char>, i: int) -> Option<(FileSystemEntryV, int)>
    decreases s.len() - i, 0int,
{
    if i < 0 || i >= s.len() {
        None
    } else if s[i] == 'f' {
        match parse_str(s, i + 1) {
            None => None,
            Some((version, j1)) => match parse_str(s, j1) {
                None => None,
                Some((path, j2)) => match parse_opt_str(s, j2) {
                    None => None,
                    Some((destination, j3)) => Some(
                        (FileSystemEntryV::File { version, path, destination }, j3),
                    ),
                },
            },
        }
    } else if s[i] == 'd' {
        match parse_str(s, i + 1) {
            None => None,
            Some((version, j1)) => match parse_str(s, j1) {
                None => None,
                Some((path, j2)) => match parse_opt_str(s, j2) {
                    None => None,
                    Some((destination, j3)) => match parse_num(s, j3) {
                        None => None,
                        Some((n, j4)) => if i < j4 <= s.len() {
                            match parse_file_pairs(s, j4, n) {
                                None => None,
                                Some((files, j5)) => Some(
                                    (
                                        FileSystemEntryV::Directory {
                                            version,
                                            path,
                                            destination,
                                            files,
                                        },
                                        j5,
                                    ),
                                ),
                            }
                        } else {
                            None
                        },
                    },
                },
            },
        }
    } else {
        None
    }
}

pub open spec fn parse_file_pairs(s: Seq<char>, i: int, n: nat) -> Option<
    (Seq<(Seq<char>, FileSystemEntryV)>, int),
>
    decreases s.len() - i, n,
{
    if n == 0 {
        Some((Seq::empty(), i))
    } else {
        match parse_str(s, i) {
            None => None,
            Some((k, j)) => if i < j <= s.len() {
                match parse_file_entry(s, j) {
                    None => None,
                    Some((v, j2)) => if j < j2 <= s.len() {
                        match parse_file_pairs(s, j2, (n - 1) as nat) {
                            None => None,
                            Some((rest, j3)) => Some((seq![(k, v)] + rest, j3)),
                        }
                    } else {
                        None
                    },
                }
            } else {
                None
            },
        }
    }
}

pub open spec fn file_entry_bounded(f: FileSystemEntryV) -> bool
    decreases f,
{
    match f {
        FileSystemEntryV::File { version, path, destination } => version.len() <= usize::MAX as nat
            && path.len() <= usize::MAX as nat && opt_str_bounded(destination),
        FileSystemEntryV::Directory { version, path, destination, files } => version.len()
            <= usize::MAX as nat && path.len() <= usize::MAX as nat && opt_str_bounded(destination)
            && files.len() <= usize::MAX as nat && forall|i: int|
            0 <= i < files.len() ==> (#[trigger] files[i]).0.len() <= usize::MAX as nat
                && file_entry_bounded(files[i].1),
    }
}

pub proof fn lemma_parse_file_entry_advances(s: Seq<char>, i: int)
    ensures
        match parse_file_entry(s, i) {
            Some((f, j)) => i < j <= s.len(),
            None => true,
        },
{
    if 0 <= i < s.len() {
        lemma_parse_str_advances(s, i + 1);
        if parse_str(s, i + 1) is Some {
            let (version, j1) = parse_str(s, i + 1)->Some_0;
            lemma_parse_str_advances(s, j1);
            if parse_str(s, j1) is Some {
                let (path, j2) = parse_str(s, j1)->Some_0;
                lemma_parse_opt_str_advances(s, j2);
                if parse_opt_str(s, j2) is Some {
                    let (destination, j3) = parse_opt_str(s, j2)->Some_0;
                    lemma_parse_num_advances(s, j3);
                    if s[i] == 'd' && parse_num(s, j3) is Some {
                        let (n, j4) = parse_num(s, j3)->Some_0;
                        if i < j4 <= s.len() {
                            lemma_parse_file_pairs_bounds(s, j4, n);
                        }
                    }
                }
            }
        }
    }
}

pub proof fn lemma_parse_opt_str_advances(s: Seq<char>, i: int)
    ensures
        match parse_opt_str(s, i) {
            Some((o, j)) => i < j <= s.len(),
            None => true,
        },
{
    lemma_parse_str_advances(s, i + 1);
}

pub proof fn lemma_parse_file_pairs_bounds(s: Seq<char>, i: int, n: nat)
    ensures
        match parse_file_pairs(s, i, n) {
            Some((files, j)) => i <= j && files.len() == n && (n > 0 ==> j <= s.len()),
            None => true,
        },
    decreases s.len() - i, n,
{
    if n != 0 {
        lemma_parse_str_advances(s, i);
        if parse_str(s, i) is Some {
            let (k, j) = parse_str(s, i)->Some_0;
            if i < j <= s.len() {
                if parse_file_entry(s, j) is Some {
                    let (v, j2) = parse_file_entry(s, j)->Some_0;
                    if j < j2 <= s.len() {
                        lemma_parse_file_pairs_bounds(s, j2, (n - 1) as nat);
                    }
                }
            }
        }
    }
}

pub proof fn lemma_parse_ser_file_entry(f: FileSystemEntryV, pre: Seq<char>, post: Seq<char>)
    requires
        file_entry_bounded(f),
    ensures
        parse_file_entry(pre + ser_file_entry(f) + post, pre.len() as int) == Some(
            (f, pre.len() + ser_file_entry(f).len() as int),
        ),
    decreases f, 1int,
{
    match f {
        FileSystemEntryV::File { version, path, destination } => {
            lemma_parse_ser_plain_file(f, pre, post);
        },
        FileSystemEntryV::Directory { version, path, destination, files } => {
            lemma_parse_ser_directory(f, pre, post);
        },
    }
}


#[verifier::rlimit(100)]
#[verifier::spinoff_prover]
proof fn lemma_parse_ser_plain_file(f: FileSystemEntryV, pre: Seq<char>, post: Seq<char>)
    requires
        file_entry_bounded(f),
        f is File,
    ensures
        parse_file_entry(pre + ser_file_entry(f) + post, pre.len() as int) == Some(
            (f, pre.len() + ser_file_entry(f).len() as int),
        ),
{
    let s = pre + ser_file_entry(f) + post;
    match f {
        FileSystemEntryV::File { version, path, destination } => {
            assert(s[pre.len() as int] == 'f');
            let a = ser_str(version);
            let b = ser_str(path);
            let c = ser_opt_str(destination);
            let pre1 = pre + seq!['f'];
            lemma_assoc(pre, seq!['f'], a + (b + c));
            lemma_assoc(pre1, a + (b + c), post);
            lemma_assoc(a, b + c, post);
            lemma_assoc(b, c, post);
            lemma_assoc(pre1, a, b + (c + post));
            assert(s == pre1 + a + (b + (c + post)));
            lemma_parse_str(version, pre1, b + (c + post));
            let pre2 = pre1 + a;
            lemma_assoc(pre2, b, c + post);
            assert(s == pre2 + b + (c + post));
            lemma_parse_str(path, pre2, c + post);
            let pre3 = pre2 + b;
            assert(s == pre3 + c + post);
            lemma_parse_opt_str(destination, pre3, post);
        },
        _ => {},
    }
}

#[verifier::rlimit(100)]
#[verifier::spinoff_prover]
proof fn lemma_parse_ser_directory(f: FileSystemEntryV, pre: Seq<char>, post: Seq<char>)
    requires
        file_entry_bounded(f),
        f is Directory,
    ensures
        parse_file_entry(pre + ser_file_entry(f) + post, pre.len() as int) == Some(
            (f, pre.len() + ser_file_entry(f).len() as int),
        ),
    decreases f, 0int,
{
    let s = pre + ser_file_entry(f) + post;
    match f {
        FileSystemEntryV::Directory { version, path, destination, files } => {
            assert(s[pre.len() as int] == 'd');
            let n = files.len();
            let a = ser_str(version);
            let b = ser_str(path);
            let c = ser_opt_str(destination);
            let d = ser_num(n);
            let e = ser_file_pairs(files);
            let pre1 = pre + seq!['d'];
            lemma_assoc(pre, seq!['d'], a + (b + (c + (d + e))));
            lemma_assoc(pre1, a + (b + (c + (d + e))), post);
            lemma_assoc(a, b + (c + (d + e)), post);
            lemma_assoc(b, c + (d + e), post);
            lemma_assoc(c, d + e, post);
            lemma_assoc(d, e, post);
            lemma_assoc(pre1, a, b + (c + (d + (e + post))));
            assert(s == pre1 + a + (b + (c + (d + (e + post)))));
            lemma_parse_str(version, pre1, b + (c + (d + (e + post))));
            let pre2 = pre1 + a;
            lemma_assoc(pre2, b, c + (d + (e + post)));
            assert(s == pre2 + b + (c + (d + (e + post))));
            lemma_parse_str(path, pre2, c + (d + (e + post)));
            let pre3 = pre2 + b;
            lemma_assoc(pre3, c, d + (e + post));
            assert(s == pre3 + c + (d + (e + post)));
            lemma_parse_opt_str(destination, pre3, d + (e + post));
            let pre4 = pre3 + c;
            lemma_assoc(pre4, d, e + post);
            assert(s == pre4 + d + (e + post));
            lemma_parse_num(n, pre4, e + post);
            let pre5 = pre4 + d;
            lemma_assoc(pre5, e, post);
            assert(s == pre5 + e + post);
            lemma_parse_ser_file_pairs(files, pre5, post);
            lemma_dec_digits_are_digits(n);
        },
        _ => {},
    }
}

pub proof fn lemma_parse_ser_file_pairs(
    files: Seq<(Seq<char>, FileSystemEntryV)>,
    pre: Seq<char>,
    post: Seq<char>,
)
    requires
        files.len() <= usize::MAX as nat,
        forall|i: int|
            0 <= i < files.len() ==> (#[trigger] files[i]).0.len() <= usize::MAX as nat
                && file_entry_bounded(files[i].1),
    ensures
        parse_file_pairs(pre + ser_file_pairs(files) + post, pre.len() as int, files.len())
            == Some((files, pre.len() + ser_file_pairs(files).len() as int)),
    decreases files, 2int,
{
    let s = pre + ser_file_pairs(files) + post;
    if files.len() == 0 {
        assert(files =~= Seq::<(Seq<char>, FileSystemEntryV)>::empty());
    } else {
        let k0 = files[0].0;
        let v0 = files[0].1;
        let rest = files.drop_first();
        lemma_assoc(ser_file_entry(v0), ser_file_pairs(rest), post);
        lemma_assoc(pre, ser_str(k0), ser_file_entry(v0) + ser_file_pairs(rest));
        lemma_assoc(pre + ser_str(k0), ser_file_entry(v0) + ser_file_pairs(rest), post);
        assert(s == pre + ser_str(k0) + (ser_file_entry(v0) + (ser_file_pairs(rest) + post)));
        lemma_parse_str(k0, pre, ser_file_entry(v0) + (ser_file_pairs(rest) + post));
        let j = pre.len() + ser_str(k0).len() as int;
        lemma_dec_digits_are_digits(k0.len());
        let pre2 = pre + ser_str(k0);
        lemma_assoc(pre2, ser_file_entry(v0), ser_file_pairs(rest) + post);
        assert(s == pre2 + ser_file_entry(v0) + (ser_file_pairs(rest) + post));
        lemma_parse_ser_file_entry(v0, pre2, ser_file_pairs(rest) + post);
        lemma_parse_file_entry_advances(s, j);
        let pre3 = pre2 + ser_file_entry(v0);
        lemma_assoc(pre3, ser_file_pairs(rest), post);
        assert(s == pre3 + ser_file_pairs(rest) + post);
        lemma_parse_ser_file_pairs(rest, pre3, post);
        assert(seq![(k0, v0)] + rest =~= files);
    }
}

// ---------------------------------------------------------------------------
// Whole descriptors.
// ---------------------------------------------------------------------------

pub open spec fn ser_opt_entry_pairs(o: Option<Seq<(Seq<char>, EntryV)>>) -> Seq<char> {
    match o {
        None => seq!['N'],
        Some(fields) => seq!['S'] + (ser_num(fields.len()) + ser_entry_pairs(fields)),
    }
}

pub open spec fn parse_opt_entry_pairs(s: Seq<char>, i: int) -> Option<
    (Option<Seq<(Seq<char>, EntryV)>>, int),
> {
    if i < 0 || i >= s.len() {
        None
    } else if s[i] == 'N' {
        Some((None, i + 1))
    } else if s[i] == 'S' {
        match parse_num(s, i + 1) {
            None => None,
            Some((n, j)) => if i + 1 < j <= s.len() {
                match parse_entry_pairs(s, j, n) {
                    None => None,
                    Some((fields, j2)) => Some((Some(fields), j2)),
                }
            } else {
                None
            },
        }
    } else {
        None
    }
}

pub open spec fn ser_opt_file_pairs(o: Option<Seq<(Seq<char>, FileSystemEntryV)>>) -> Seq<char> {
    match o {
        None => seq!['N'],
        Some(files) => seq!['S'] + (ser_num(files.len()) + ser_file_pairs(files)),
    }
}

pub open spec fn parse_opt_file_pairs(s: Seq<char>, i: int) -> Option<
    (Option<Seq<(Seq<char>, FileSystemEntryV)>>, int),
> {
    if i < 0 || i >= s.len() {
        None
    } else if s[i] == 'N' {
        Some((None, i + 1))
    } else if s[i] == 'S' {
        match parse_num(s, i + 1) {
            None => None,
            Some((n, j)) => if i + 1 < j <= s.len() {
                match parse_file_pairs(s, j, n) {
                    None => None,
                    Some((files, j2)) => Some((Some(files), j2)),
                }
            } else {
                None
            },
        }
    } else {
        None
    }
}

pub proof fn lemma_parse_opt_entry_pairs(
    o: Option<Seq<(Seq<char>, EntryV)>>,
    pre: Seq<char>,
    post: Seq<char>,
)
    requires
        match o {
            Some(fields) => fields.len() <= usize::MAX as nat && forall|i: int|
                0 <= i < fields.len() ==> (#[trigger] fields[i]).0.len() <= usize::MAX as nat
                    && entry_bounded(fields[i].1),
            None => true,
        },
    ensures
        parse_opt_entry_pairs(pre + ser_opt_entry_pairs(o) + post, pre.len() as int) == Some(
            (o, pre.len() + ser_opt_entry_pairs(o).len() as int),
        ),
{
    let s = pre + ser_opt_entry_pairs(o) + post;
    match o {
        None => {
            assert(s[pre.len() as int] == 'N');
        },
        Some(fields) => {
            assert(s[pre.len() as int] == 'S');
            let n = fields.len();
            let pre1 = pre + seq!['S'];
            lemma_assoc(pre, seq!['S'], ser_num(n) + ser_entry_pairs(fields));
            lemma_assoc(pre1, ser_num(n) + ser_entry_pairs(fields), post);
            lemma_assoc(ser_num(n), ser_entry_pairs(fields), post);
            lemma_assoc(pre1, ser_num(n), ser_entry_pairs(fields) + post);
            assert(s == pre1 + ser_num(n) + (ser_entry_pairs(fields) + post));
            lemma_parse_num(n, pre1, ser_entry_pairs(fields) + post);
            let pre2 = pre1 + ser_num(n);
            lemma_assoc(pre2, ser_entry_pairs(fields), post);
            assert(s == pre2 + ser_entry_pairs(fields) + post);
            lemma_parse_ser_entry_pairs(fields, pre2, post);
            lemma_dec_digits_are_digits(n);
        },
    }
}

pub proof fn lemma_parse_opt_file_pairs(
    o: Option<Seq<(Seq<char>, FileSystemEntryV)>>,
    pre: Seq<char>,
    post: Seq<char>,
)
    requires
        match o {
            Some(files) => files.len() <= usize::MAX as nat && forall|i: int|
                0 <= i < files.len() ==> (#[trigger] files[i]).0.len() <= usize::MAX as nat
                    && file_entry_bounded(files[i].1),
            None => true,
        },
    ensures
        parse_opt_file_pairs(pre + ser_opt_file_pairs(o) + post, pre.len() as int) == Some(
            (o, pre.len() + ser_opt_file_pairs(o).len() as int),
        ),
{
    let s = pre + ser_opt_file_pairs(o) + post;
    match o {
        None => {
            assert(s[pre.len() as int] == 'N');
        },
        Some(files) => {
            assert(s[pre.len() as int] == 'S');
            let n = files.len();
            let pre1 = pre + seq!['S'];
            lemma_assoc(pre, seq!['S'], ser_num(n) + ser_file_pairs(files));
            lemma_assoc(pre1, ser_num(n) + ser_file_pairs(files), post);
            lemma_assoc(ser_num(n), ser_file_pairs(files), post);
            lemma_assoc(pre1, ser_num(n), ser_file_pairs(files) + post);
            assert(s == pre1 + ser_num(n) + (ser_file_pairs(files) + post));
            lemma_parse_num(n, pre1, ser_file_pairs(files) + post);
            let pre2 = pre1 + ser_num(n);
            lemma_assoc(pre2, ser_file_pairs(files), post);
            assert(s == pre2 + ser_file_pairs(files) + post);
            lemma_parse_ser_file_pairs(files, pre2, post);
            lemma_dec_digits_are_digits(n);
        },
    }
}

pub open spec fn ser_plugin_info(p: PluginInfoV) -> Seq<char> {
    ser_package(p.plugin_info) + (ser_opt_entry_pairs(p.placeholders) + ser_opt_file_pairs(
        p.supporting_files,
    ))
}

pub open spec fn parse_plugin_info(s: Seq<char>, i: int) -> Option<(PluginInfoV, int)> {
    match parse_package(s, i) {
        None => None,
        Some((pkg, j1)) => match parse_opt_entry_pairs(s, j1) {
            None => None,
            Some((placeholders, j2)) => match parse_opt_file_pairs(s, j2) {
                None => None,
                Some((supporting_files, j3)) => Some(
                    (PluginInfoV { plugin_info: pkg, placeholders, supporting_files }, j3),
                ),
            },
        },
    }
}

pub open spec fn plugin_info_bounded(p: PluginInfoV) -> bool {
    package_bounded(p.plugin_info) && (match p.placeholders {
        Some(fields) => fields.len() <= usize::MAX as nat && forall|i: int|
            0 <= i < fields.len() ==> (#[trigger] fields[i]).0.len() <= usize::MAX as nat
                && entry_bounded(fields[i].1),
        None => true,
    }) && (match p.supporting_files {
        Some(files) => files.len() <= usize::MAX as nat && forall|i: int|
            0 <= i < files.len() ==> (#[trigger] files[i]).0.len() <= usize::MAX as nat
                && file_entry_bounded(files[i].1),
        None => true,
    })
}

#[verifier::rlimit(100)]
#[verifier::spinoff_prover]
pub proof fn lemma_parse_ser_plugin_info(p: PluginInfoV, pre: Seq<char>, post: Seq<char>)
    requires
        plugin_info_bounded(p),
    ensures
        parse_plugin_info(pre + ser_plugin_info(p) + post, pre.len() as int) == Some(
            (p, pre.len() + ser_plugin_info(p).len() as int),
        ),
{
    let s = pre + ser_plugin_info(p) + post;
    let a = ser_package(p.plugin_info);
    let b = ser_opt_entry_pairs(p.placeholders);
    let c = ser_opt_file_pairs(p.supporting_files);
    lemma_assoc(pre, a, b + c);
    lemma_assoc(pre + a, b + c, post);
    lemma_assoc(b, c, post);
    assert(s == pre + a + (b + (c + post)));
    lemma_parse_package(p.plugin_info, pre, b + (c + post));
    let pre2 = pre + a;
    lemma_assoc(pre2, b, c + post);
    assert(s == pre2 + b + (c + post));
    lemma_parse_opt_entry_pairs(p.placeholders, pre2, c + post);
    let pre3 = pre2 + b;
    assert(s == pre3 + c + post);
    lemma_parse_opt_file_pairs(p.supporting_files, pre3, post);
}

/// A whole text parses as one descriptor exactly when `parse_plugin_info`
/// consumes all of it.
pub open spec fn parse_plugin_info_full(s: Seq<char>) -> Option<PluginInfoV> {
    match parse_plugin_info(s, 0) {
        Some((p, j)) => if j == s.len() {
            Some(p)
        } else {
            None
        },
        None => None,
    }
}

/// Round trip: parsing a serialized descriptor gives back the descriptor,
/// all fields, key order and list order included.
pub proof fn lemma_plugin_info_round_trip(p: PluginInfoV)
    requires
        plugin_info_bounded(p),
    ensures
        parse_plugin_info_full(ser_plugin_info(p)) == Some(p),
{
    lemma_parse_ser_plugin_info(p, Seq::empty(), Seq::empty());
    assert(Seq::empty() + ser_plugin_info(p) + Seq::empty() =~= ser_plugin_info(p));
}

// ---------------------------------------------------------------------------
// Global configuration records.
// ---------------------------------------------------------------------------

pub open spec fn ser_global_config(c: GlobalConfigV) -> Seq<char> {
    ser_str(c.config_path) + (ser_str(c.git_repo) + (ser_opt_str(c.ssh_key) + (ser_bool(
        c.key_needs_pw,
    ) + ser_str(c.home))))
}

pub open spec fn parse_global_config(s: Seq<char>, i: int) -> Option<(GlobalConfigV, int)> {
    match parse_str(s, i) {
        None => None,
        Some((config_path, j1)) => match parse_str(s, j1) {
            None => None,
            Some((git_repo, j2)) => match parse_opt_str(s, j2) {
                None => None,
                Some((ssh_key, j3)) => match parse_bool(s, j3) {
                    None => None,
                    Some((key_needs_pw, j4)) => match parse_str(s, j4) {
                        None => None,
                        Some((home, j5)) => Some(
                            (GlobalConfigV { config_path, git_repo, ssh_key, key_needs_pw, home },
                            j5),
                        ),
                    },
                },
            },
        },
    }
}

pub open spec fn global_config_bounded(c: GlobalConfigV) -> bool {
    c.config_path.len() <= usize::MAX as nat && c.git_repo.len() <= usize::MAX as nat
        && opt_str_bounded(c.ssh_key) && c.home.len() <= usize::MAX as nat
}

pub proof fn lemma_parse_ser_global_config(c: GlobalConfigV, pre: Seq<char>, post: Seq<char>)
    requires
        global_config_bounded(c),
    ensures
        parse_global_config(pre + ser_global_config(c) + post, pre.len() as int) == Some(
            (c, pre.len() + ser_global_config(c).len() as int),
        ),
{
    let s = pre + ser_global_config(c) + post;
    let t1 = ser_str(c.git_repo) + (ser_opt_str(c.ssh_key) + (ser_bool(c.key_needs_pw) + ser_str(
        c.home,
    )));
    let t2 = ser_opt_str(c.ssh_key) + (ser_bool(c.key_needs_pw) + ser_str(c.home));
    let t3 = ser_bool(c.key_needs_pw) + ser_str(c.home);
    lemma_assoc(pre, ser_str(c.config_path), t1);
    lemma_assoc(pre + ser_str(c.config_path), t1, post);
    assert(s == pre + ser_str(c.config_path) + (t1 + post));
    lemma_parse_str(c.config_path, pre, t1 + post);
    let pre2 = pre + ser_str(c.config_path);
    lemma_assoc(ser_str(c.git_repo), t2, post);
    lemma_assoc(pre2, ser_str(c.git_repo), t2 + post);
    assert(s == pre2 + ser_str(c.git_repo) + (t2 + post));
    lemma_parse_str(c.git_repo, pre2, t2 + post);
    let pre3 = pre2 + ser_str(c.git_repo);
    lemma_assoc(ser_opt_str(c.ssh_key), t3, post);
    lemma_assoc(pre3, ser_opt_str(c.ssh_key), t3 + post);
    assert(s == pre3 + ser_opt_str(c.ssh_key) + (t3 + post));
    lemma_parse_opt_str(c.ssh_key, pre3, t3 + post);
    let pre4 = pre3 + ser_opt_str(c.ssh_key);
    lemma_assoc(ser_bool(c.key_needs_pw), ser_str(c.home), post);
    lemma_assoc(pre4, ser_bool(c.key_needs_pw), ser_str(c.home) + post);
    assert(s == pre4 + ser_bool(c.key_needs_pw) + (ser_str(c.home) + post));
    lemma_parse_bool(c.key_needs_pw, pre4, ser_str(c.home) + post);
    let pre5 = pre4 + ser_bool(c.key_needs_pw);
    lemma_assoc(pre5, ser_str(c.home), post);
    assert(s == pre5 + ser_str(c.home) + post);
    lemma_parse_str(c.home, pre5, post);
}

pub open spec fn parse_global_config_full(s: Seq<char>) -> Option<GlobalConfigV> {
    match parse_global_config(s, 0) {
        Some((c, j)) => if j == s.len() {
            Some(c)
        } else {
            None
        },
        None => None,
    }
}

/// Round trip: parsing a serialized configuration gives it back.
pub proof fn lemma_global_config_round_trip(c: GlobalConfigV)
    requires
        global_config_bounded(c),
    ensures
        parse_global_config_full(ser_global_config(c)) == Some(c),
{
    lemma_parse_ser_global_config(c, Seq::empty(), Seq::empty());
    assert(Seq::empty() + ser_global_config(c) + Seq::empty() =~= ser_global_config(c));
}

// ---------------------------------------------------------------------------
// Executable serialization of descriptors.
// ---------------------------------------------------------------------------

fn push_opt_str(out: &mut String, o: &Option<String>)
    ensures
        final(out)@ == old(out)@ + ser_opt_str(o.deep_view()),
{
    proof {
        reveal_strlit("N");
        reveal_strlit("S");
    }
    match o {
        None => {
            out.append("N");
            proof {
                assert(final(out)@ =~= old(out)@ + ser_opt_str(o.deep_view()));
            }
        },
        Some(v) => {
            out.append("S");
            push_str_token(out, v.as_str());
            proof {
                assert(final(out)@ =~= old(out)@ + ser_opt_str(o.deep_view()));
            }
        },
    }
}

fn push_bool(out: &mut String, b: bool)
    ensures
        final(out)@ == old(out)@ + ser_bool(b),
{
    proof {
        reveal_strlit("T");
        reveal_strlit("F");
    }
    if b {
        out.append("T");
    } else {
        out.append("F");
    }
    proof {
        assert(final(out)@ =~= old(out)@ + ser_bool(b));
    }
}

proof fn lemma_ser_str_list_snoc(a: Seq<Seq<char>>, x: Seq<char>)
    ensures
        ser_str_list(a + seq![x]) == ser_str_list(a) + ser_str(x),
    decreases a,
{
    if a.len() == 0 {
        assert(a + seq![x] =~= seq![x]);
        assert(ser_str_list(seq![x]) == ser_str(seq![x][0]) + ser_str_list(seq![x].drop_first()));
        assert(seq![x].drop_first() =~= Seq::<Seq<char>>::empty());
        assert(ser_str_list(a + seq![x]) =~= ser_str_list(a) + ser_str(x));
    } else {
        assert((a + seq![x]).drop_first() =~= a.drop_first() + seq![x]);
        lemma_ser_str_list_snoc(a.drop_first(), x);
        assert((a + seq![x])[0] == a[0]);
        assert(ser_str_list(a + seq![x]) =~= ser_str_list(a) + ser_str(x));
    }
}

#[verifier::loop_isolation(false)]
fn push_opt_str_list(out: &mut String, o: &Option<Vec<String>>)
    ensures
        final(out)@ == old(out)@ + ser_opt_str_list(o.deep_view()),
{
    proof {
        reveal_strlit("N");
        reveal_strlit("S");
    }
    match o {
        None => {
            out.append("N");
            proof {
                assert(final(out)@ =~= old(out)@ + ser_opt_str_list(o.deep_view()));
            }
        },
        Some(items) => {
            out.append("S");
            push_num(out, items.len());
            let ghost iv = items.deep_view();
            proof {
                assert(iv.take(0) =~= Seq::<Seq<char>>::empty());
                assert(out@ =~= old(out)@ + seq!['S'] + ser_num(items@.len() as nat));
            }
            let mut i: usize = 0;
            while i < items.len()
                invariant
                    i <= items.len(),
                    out@ == old(out)@ + seq!['S'] + ser_num(items@.len() as nat) + ser_str_list(
                        iv.take(i as int),
                    ),
                decreases items.len() - i,
            {
                push_str_token(out, items[i].as_str());
                proof {
                    assert(iv.take(i + 1) =~= iv.take(i as int) + seq![iv[i as int]]);
                    lemma_ser_str_list_snoc(iv.take(i as int), iv[i as int]);
                    assert(iv[i as int] == items@[i as int]@);
                }
                i += 1;
            }
            proof {
                assert(iv.take(items@.len() as int) =~= iv);
                assert(final(out)@ =~= old(out)@ + ser_opt_str_list(o.deep_view()));
            }
        },
    }
}

fn push_plugin_type(out: &mut String, p: &PluginType)
    ensures
        final(out)@ == old(out)@ + ser_plugin_type(p@),
{
    proof {
        reveal_strlit("h");
        reveal_strlit("c");
        reveal_strlit("r");
    }
    match p {
        PluginType::Shell(c) => {
            out.append("h");
            push_str_token(out, c.as_str());
            proof {
                assert(final(out)@ =~= old(out)@ + ser_plugin_type(p@));
            }
        },
        PluginType::Script(c) => {
            out.append("c");
            push_str_token(out, c.as_str());
            proof {
                assert(final(out)@ =~= old(out)@ + ser_plugin_type(p@));
            }
        },
        PluginType::RustPackage { path, git, tag } => {
            out.append("r");
            push_opt_str(out, path);
            push_opt_str(out, git);
            push_opt_str(out, tag);
            proof {
                assert(final(out)@ =~= old(out)@ + ser_plugin_type(p@));
            }
        },
    }
}

#[verifier::rlimit(100)]
#[verifier::spinoff_prover]
fn push_package(out: &mut String, p: &Package)
    ensures
        final(out)@ == old(out)@ + ser_package(p@),
{
    push_str_token(out, p.author.as_str());
    push_str_token(out, p.version.as_str());
    push_opt_str(out, &p.help);
    push_opt_str_list(out, &p.internal_dependencies);
    push_opt_str_list(out, &p.external_dependencies);
    push_plugin_type(out, &p.plugin_type);
    proof {
        assert(final(out)@ =~= old(out)@ + ser_package(p@));
    }
}

proof fn lemma_ser_file_pairs_snoc(a: Seq<(Seq<char>, FileSystemEntryV)>, x: (
    Seq<char>,
    FileSystemEntryV,
))
    ensures
        ser_file_pairs(a + seq![x]) == ser_file_pairs(a) + (ser_str(x.0) + (ser_file_entry(x.1)
            + Seq::<char>::empty())),
    decreases a,
{
    if a.len() == 0 {
        assert(a + seq![x] =~= seq![x]);
        assert(ser_file_pairs(seq![x]) == ser_str(seq![x][0].0) + (ser_file_entry(seq![x][0].1)
            + ser_file_pairs(seq![x].drop_first())));
        assert(seq![x].drop_first() =~= Seq::<(Seq<char>, FileSystemEntryV)>::empty());
        assert(ser_file_pairs(a + seq![x]) =~= ser_file_pairs(a) + (ser_str(x.0) + (ser_file_entry(
            x.1,
        ) + Seq::<char>::empty())));
    } else {
        assert((a + seq![x]).drop_first() =~= a.drop_first() + seq![x]);
        lemma_ser_file_pairs_snoc(a.drop_first(), x);
        assert((a + seq![x])[0] == a[0]);
        assert(ser_file_pairs(a + seq![x]) =~= ser_file_pairs(a) + (ser_str(x.0) + (ser_file_entry(
            x.1,
        ) + Seq::<char>::empty())));
    }
}

/// Serialize a supporting-file tree to its text form.
#[verifier::loop_isolation(false)]
#[verifier::rlimit(100)]
#[verifier::spinoff_prover]
fn ser_file_entry_exec(f: &FileSystemEntry) -> (r: String)
    ensures
        r@ == ser_file_entry(f@),
    decreases f,
{
    proof {
        reveal_strlit("f");
        reveal_strlit("d");
    }
    match f {
        FileSystemEntry::File { version, path, destination } => {
            let mut out = String::from_str("f");
            push_str_token(&mut out, version.as_str());
            push_str_token(&mut out, path.as_str());
            push_opt_str(&mut out, destination);
            proof {
                assert(out@ =~= ser_file_entry(f@));
            }
            out
        },
        FileSystemEntry::Directory { version, path, destination, files } => {
            let ghost fv = crate::models::file_pairs_view(files@);
            proof {
                crate::models::lemma_file_pairs_view_len(files@);
            }
            let mut out = String::from_str("d");
            push_str_token(&mut out, version.as_str());
            push_str_token(&mut out, path.as_str());
            push_opt_str(&mut out, destination);
            push_num(&mut out, files.len());
            let ghost head = out@;
            proof {
                assert(fv.take(0) =~= Seq::<(Seq<char>, FileSystemEntryV)>::empty());
                assert(out@ =~= head + ser_file_pairs(fv.take(0)));
            }
            let mut i: usize = 0;
            while i < files.len()
                invariant
                    i <= files.len(),
                    out@ == head + ser_file_pairs(fv.take(i as int)),
                decreases files.len() - i,
            {
                proof {
                    assert(decreases_to!(*f => *files));
                    assert(decreases_to!(*files => files@[i as int]));
                    assert(decreases_to!(files@[i as int] => files@[i as int].1));
                }
                push_str_token(&mut out, files[i].0.as_str());
                let sub = ser_file_entry_exec(&files[i].1);
                out.append(sub.as_str());
                proof {
                    assert(fv.take(i + 1) =~= fv.take(i as int) + seq![fv[i as int]]);
                    lemma_ser_file_pairs_snoc(fv.take(i as int), fv[i as int]);
                    assert(out@ =~= head + ser_file_pairs(fv.take(i + 1)));
                }
                i += 1;
            }
            proof {
                assert(fv.take(files@.len() as int) =~= fv);
                assert(out@ =~= ser_file_entry(f@));
            }
            out
        },
    }
}

fn push_opt_entry_pairs(out: &mut String, o: &Option<Vec<(String, EntryType)>>)
    ensures
        final(out)@ == old(out)@ + ser_opt_entry_pairs(
            match o {
                Some(ps) => Some(crate::models::entry_pairs_view(ps@)),
                None => None,
            },
        ),
{
    proof {
        reveal_strlit("N");
        reveal_strlit("S");
    }
    match o {
        None => {
            out.append("N");
            proof {
                assert(final(out)@ =~= old(out)@ + seq!['N']);
            }
        },
        Some(fields) => {
            out.append("S");
            push_num(out, fields.len());
            let ghost fv = crate::models::entry_pairs_view(fields@);
            proof {
                crate::models::lemma_entry_pairs_view_len(fields@);
                assert(fv.take(0) =~= Seq::<(Seq<char>, EntryV)>::empty());
            }
            let ghost head = out@;
            let mut i: usize = 0;
            #[verifier::loop_isolation(false)]
            while i < fields.len()
                invariant
                    i <= fields.len(),
                    out@ == head + ser_entry_pairs(fv.take(i as int)),
                decreases fields.len() - i,
            {
                push_str_token(out, fields[i].0.as_str());
                let sub = ser_entry_exec(&fields[i].1);
                out.append(sub.as_str());
                proof {
                    assert(fv.take(i + 1) =~= fv.take(i as int) + seq![fv[i as int]]);
                    lemma_ser_entry_pairs_snoc(fv.take(i as int), fv[i as int]);
                    assert(out@ =~= head + ser_entry_pairs(fv.take(i + 1)));
                }
                i += 1;
            }
            proof {
                assert(fv.take(fields@.len() as int) =~= fv);
                assert(final(out)@ =~= old(out)@ + ser_opt_entry_pairs(Some(fv)));
            }
        },
    }
}

fn push_opt_file_pairs(out: &mut String, o: &Option<Vec<(String, FileSystemEntry)>>)
    ensures
        final(out)@ == old(out)@ + ser_opt_file_pairs(
            match o {
                Some(fs) => Some(crate::models::file_pairs_view(fs@)),
                None => None,
            },
        ),
{
    proof {
        reveal_strlit("N");
        reveal_strlit("S");
    }
    match o {
        None => {
            out.append("N");
            proof {
                assert(final(out)@ =~= old(out)@ + seq!['N']);
            }
        },
        Some(files) => {
            out.append("S");
            push_num(out, files.len());
            let ghost fv = crate::models::file_pairs_view(files@);
            proof {
                crate::models::lemma_file_pairs_view_len(files@);
                assert(fv.take(0) =~= Seq::<(Seq<char>, FileSystemEntryV)>::empty());
            }
            let ghost head = out@;
            let mut i: usize = 0;
            #[verifier::loop_isolation(false)]
            while i < files.len()
                invariant
                    i <= files.len(),
                    out@ == head + ser_file_pairs(fv.take(i as int)),
                decreases files.len() - i,
            {
                push_str_token(out, files[i].0.as_str());
                let sub = ser_file_entry_exec(&files[i].1);
                out.append(sub.as_str());
                proof {
                    assert(fv.take(i + 1) =~= fv.take(i as int) + seq![fv[i as int]]);
                    lemma_ser_file_pairs_snoc(fv.take(i as int), fv[i as int]);
                    assert(out@ =~= head + ser_file_pairs(fv.take(i + 1)));
                }
                i += 1;
            }
            proof {
                assert(fv.take(files@.len() as int) =~= fv);
                assert(final(out)@ =~= old(out)@ + ser_opt_file_pairs(Some(fv)));
            }
        },
    }
}

/// Serialize a whole descriptor to its text form.
pub fn plugin_info_to_text(p: &PluginInfo) -> (r: String)
    ensures
        r@ == ser_plugin_info(p@),
{
    let mut out = String::new();
    push_package(&mut out, &p.plugin_info);
    push_opt_entry_pairs(&mut out, &p.placeholders);
    push_opt_file_pairs(&mut out, &p.supporting_files);
    proof {
        assert(out@ =~= ser_plugin_info(p@));
    }
    out
}

/// Serialize a configuration record to its text form.
pub fn global_config_to_text(c: &GlobalConfig) -> (r: String)
    ensures
        r@ == ser_global_config(c@),
{
    let mut out = String::new();
    push_str_token(&mut out, c.config_path.as_str());
    push_str_token(&mut out, c.git_repo.as_str());
    push_opt_str(&mut out, &c.ssh_key);
    push_bool(&mut out, c.key_needs_pw);
    push_str_token(&mut out, c.home.as_str());
    proof {
        assert(out@ =~= ser_global_config(c@));
    }
    out
}

// ---------------------------------------------------------------------------
// Executable parsing of descriptors.
// ---------------------------------------------------------------------------

fn parse_opt_str_exec(s: &str, i: usize) -> (r: Option<(Option<String>, usize)>)
    ensures
        match r {
            Some((o, j)) => parse_opt_str(s@, i as int) == Some((o.deep_view(), j as int)) && i < j
                <= s@.len(),
            None => parse_opt_str(s@, i as int) is None,
        },
{
    let n = s.unicode_len();
    if i >= n {
        return None;
    }
    let tag = s.get_char(i);
    if tag == 'N' {
        Some((None, i + 1))
    } else if tag == 'S' {
        match parse_str_token(s, i + 1) {
            None => None,
            Some((v, j)) => {
                proof {
                    lemma_parse_str_advances(s@, i + 1);
                }
                Some((Some(v), j))
            },
        }
    } else {
        None
    }
}

#[verifier::loop_isolation(false)]
fn parse_opt_str_list_exec(s: &str, i: usize) -> (r: Option<(Option<Vec<String>>, usize)>)
    ensures
        match r {
            Some((o, j)) => parse_opt_str_list(s@, i as int) == Some((o.deep_view(), j as int))
                && i < j <= s@.len(),
            None => parse_opt_str_list(s@, i as int) is None,
        },
{
    let n_total = s.unicode_len();
    if i >= n_total {
        return None;
    }
    let tag = s.get_char(i);
    if tag == 'N' {
        return Some((None, i + 1));
    }
    if tag != 'S' {
        return None;
    }
    match parse_num_exec(s, i + 1) {
        None => None,
        Some((n, j)) => {
            proof {
                lemma_parse_num_advances(s@, i + 1);
            }
            let mut out: Vec<String> = Vec::new();
            let mut cur = j;
            let mut rem = n;
            proof {
                assert(out.deep_view() =~= Seq::<Seq<char>>::empty());
            }
            loop
                invariant
                    j <= cur <= s@.len(),
                    rem <= n,
                    match parse_str_list(s@, cur as int, rem as nat) {
                        None => parse_str_list(s@, j as int, n as nat) is None,
                        Some((rest, jj)) => parse_str_list(s@, j as int, n as nat) == Some(
                            (out.deep_view() + rest, jj),
                        ),
                    },
                decreases rem,
            {
                if rem == 0 {
                    break ;
                }
                match parse_str_token(s, cur) {
                    None => {
                        return None;
                    },
                    Some((v, j1)) => {
                        proof {
                            lemma_parse_str_advances(s@, cur as int);
                        }
                        let ghost old_out = out.deep_view();
                        let ghost vv = v@;
                        out.push(v);
                        proof {
                            assert(out.deep_view() =~= old_out + seq![vv]);
                            assert(old_out + (seq![vv] + parse_str_list(
                                s@,
                                j1 as int,
                                (rem - 1) as nat,
                            )->Some_0.0) =~= out.deep_view() + parse_str_list(
                                s@,
                                j1 as int,
                                (rem - 1) as nat,
                            )->Some_0.0) by {
                                if parse_str_list(s@, j1 as int, (rem - 1) as nat) is Some {
                                }
                            }
                        }
                        cur = j1;
                        rem = rem - 1;
                    },
                }
            }
            proof {
                assert(parse_str_list(s@, cur as int, 0) == Some(
                    (Seq::<Seq<char>>::empty(), cur as int),
                ));
                assert(out.deep_view() + Seq::<Seq<char>>::empty() =~= out.deep_view());
            }
            Some((Some(out), cur))
        },
    }
}

fn parse_bool_exec(s: &str, i: usize) -> (r: Option<(bool, usize)>)
    ensures
        match r {
            Some((b, j)) => parse_bool(s@, i as int) == Some((b, j as int)) && i < j <= s@.len(),
            None => parse_bool(s@, i as int) is None,
        },
{
    let n = s.unicode_len();
    if i >= n {
        return None;
    }
    let tag = s.get_char(i);
    if tag == 'T' {
        Some((true, i + 1))
    } else if tag == 'F' {
        Some((false, i + 1))
    } else {
        None
    }
}

fn parse_plugin_type_exec(s: &str, i: usize) -> (r: Option<(PluginType, usize)>)
    ensures
        match r {
            Some((p, j)) => parse_plugin_type(s@, i as int) == Some((p@, j as int)) && i < j
                <= s@.len(),
            None => parse_plugin_type(s@, i as int) is None,
        },
{
    let n = s.unicode_len();
    if i >= n {
        return None;
    }
    let tag = s.get_char(i);
    if tag == 'h' {
        match parse_str_token(s, i + 1) {
            None => None,
            Some((c, j)) => {
                proof {
                    lemma_parse_str_advances(s@, i + 1);
                }
                Some((PluginType::Shell(c), j))
            },
        }
    } else if tag == 'c' {
        match parse_str_token(s, i + 1) {
            None => None,
            Some((c, j)) => {
                proof {
                    lemma_parse_str_advances(s@, i + 1);
                }
                Some((PluginType::Script(c), j))
            },
        }
    } else if tag == 'r' {
        match parse_opt_str_exec(s, i + 1) {
            None => None,
            Some((path, j1)) => match parse_opt_str_exec(s, j1) {
                None => None,
                Some((git, j2)) => match parse_opt_str_exec(s, j2) {
                    None => None,
                    Some((tag_field, j3)) => Some(
                        (PluginType::RustPackage { path, git, tag: tag_field }, j3),
                    ),
                },
            },
        }
    } else {
        None
    }
}

fn parse_package_exec(s: &str, i: usize) -> (r: Option<(Package, usize)>)
    ensures
        match r {
            Some((p, j)) => parse_package(s@, i as int) == Some((p@, j as int)) && i < j
                <= s@.len(),
            None => parse_package(s@, i as int) is None,
        },
{
    match parse_str_token(s, i) {
        None => None,
        Some((author, j1)) => {
            proof {
                lemma_parse_str_advances(s@, i as int);
            }
            match parse_str_token(s, j1) {
                None => None,
                Some((version, j2)) => {
                    proof {
                        lemma_parse_str_advances(s@, j1 as int);
                    }
                    match parse_opt_str_exec(s, j2) {
                        None => None,
                        Some((help, j3)) => match parse_opt_str_list_exec(s, j3) {
                            None => None,
                            Some((internal, j4)) => match parse_opt_str_list_exec(s, j4) {
                                None => None,
                                Some((external, j5)) => match parse_plugin_type_exec(s, j5) {
                                    None => None,
                                    Some((pt, j6)) => Some(
                                        (
                                            Package {
                                                author,
                                                version,
                                                help,
                                                internal_dependencies: internal,
                                                external_dependencies: external,
                                                plugin_type: pt,
                                            },
                                            j6,
                                        ),
                                    ),
                                },
                            },
                        },
                    }
                },
            }
        },
    }
}

#[verifier::loop_isolation(false)]
fn parse_file_pairs_exec(s: &str, i: usize, n: usize) -> (r: Option<
    (Vec<(String, FileSystemEntry)>, usize),
>)
    requires
        i as int <= s@.len(),
    ensures
        match r {
            Some((files, j)) => parse_file_pairs(s@, i as int, n as nat) == Some(
                (crate::models::file_pairs_view(files@), j as int),
            ) && i <= j <= s@.len(),
            None => parse_file_pairs(s@, i as int, n as nat) is None,
        },
    decreases s@.len() - i, 1int,
{
    let mut out: Vec<(String, FileSystemEntry)> = Vec::new();
    let mut cur = i;
    let mut rem = n;
    proof {
        crate::models::lemma_file_pairs_view_len(out@);
        assert(crate::models::file_pairs_view(out@) =~= Seq::<(Seq<char>, FileSystemEntryV)>::empty());
    }
    loop
        invariant
            i <= cur <= s@.len(),
            rem <= n,
            match parse_file_pairs(s@, cur as int, rem as nat) {
                None => parse_file_pairs(s@, i as int, n as nat) is None,
                Some((rest, jj)) => parse_file_pairs(s@, i as int, n as nat) == Some(
                    (crate::models::file_pairs_view(out@) + rest, jj),
                ),
            },
        decreases rem,
    {
        if rem == 0 {
            break ;
        }
        match parse_str_token(s, cur) {
            None => {
                return None;
            },
            Some((k, j1)) => {
                proof {
                    lemma_parse_str_advances(s@, cur as int);
                }
                match parse_file_entry_at(s, j1) {
                    None => {
                        return None;
                    },
                    Some((v, j2)) => {
                        let ghost old_out = out@;
                        let ghost kv = k@;
                        let ghost vv = v@;
                        out.push((k, v));
                        proof {
                            crate::models::lemma_file_pairs_view_len(old_out);
                            crate::models::lemma_file_pairs_view_len(out@);
                            assert(crate::models::file_pairs_view(out@)
                                =~= crate::models::file_pairs_view(old_out) + seq![(kv, vv)]);
                            assert(crate::models::file_pairs_view(old_out) + (seq![(kv, vv)]
                                + parse_file_pairs(s@, j2 as int, (rem - 1) as nat)->Some_0.0)
                                =~= crate::models::file_pairs_view(out@) + parse_file_pairs(
                                s@,
                                j2 as int,
                                (rem - 1) as nat,
                            )->Some_0.0) by {
                                if parse_file_pairs(s@, j2 as int, (rem - 1) as nat) is Some {
                                }
                            }
                        }
                        cur = j2;
                        rem = rem - 1;
                    },
                }
            },
        }
    }
    proof {
        assert(parse_file_pairs(s@, cur as int, 0) == Some(
            (Seq::<(Seq<char>, FileSystemEntryV)>::empty(), cur as int),
        ));
        assert(crate::models::file_pairs_view(out@) + Seq::<(Seq<char>, FileSystemEntryV)>::empty()
            =~= crate::models::file_pairs_view(out@));
    }
    Some((out, cur))
}

fn parse_file_entry_at(s: &str, i: usize) -> (r: Option<(FileSystemEntry, usize)>)
    requires
        i as int <= s@.len(),
    ensures
        match r {
            Some((f, j)) => parse_file_entry(s@, i as int) == Some((f@, j as int)) && i < j
                <= s@.len(),
            None => parse_file_entry(s@, i as int) is None,
        },
    decreases s@.len() - i, 0int,
{
    let n_total = s.unicode_len();
    if i >= n_total {
        return None;
    }
    let tag = s.get_char(i);
    if tag == 'f' {
        match parse_str_token(s, i + 1) {
            None => None,
            Some((version, j1)) => {
                proof {
                    lemma_parse_str_advances(s@, i + 1);
                }
                match parse_str_token(s, j1) {
                    None => None,
                    Some((path, j2)) => {
                        proof {
                            lemma_parse_str_advances(s@, j1 as int);
                        }
                        match parse_opt_str_exec(s, j2) {
                            None => None,
                            Some((destination, j3)) => Some(
                                (FileSystemEntry::File { version, path, destination }, j3),
                            ),
                        }
                    },
                }
            },
        }
    } else if tag == 'd' {
        match parse_str_token(s, i + 1) {
            None => None,
            Some((version, j1)) => {
                proof {
                    lemma_parse_str_advances(s@, i + 1);
                }
                match parse_str_token(s, j1) {
                    None => None,
                    Some((path, j2)) => {
                        proof {
                            lemma_parse_str_advances(s@, j1 as int);
                        }
                        match parse_opt_str_exec(s, j2) {
                            None => None,
                            Some((destination, j3)) => {
                                match parse_num_exec(s, j3) {
                                    None => None,
                                    Some((n, j4)) => {
                                        proof {
                                            lemma_parse_num_advances(s@, j3 as int);
                                        }
                                        match parse_file_pairs_exec(s, j4, n) {
                                            None => None,
                                            Some((files, j5)) => Some(
                                                (
                                                    FileSystemEntry::Directory {
                                                        version,
                                                        path,
                                                        destination,
                                                        files,
                                                    },
                                                    j5,
                                                ),
                                            ),
                                        }
                                    },
                                }
                            },
                        }
                    },
                }
            },
        }
    } else {
        None
    }
}

#[verifier::loop_isolation(false)]
fn parse_entry_pairs_exec(s: &str, i: usize, n: usize) -> (r: Option<
    (Vec<(String, EntryType)>, usize),
>)
    requires
        i as int <= s@.len(),
    ensures
        match r {
            Some((fields, j)) => parse_entry_pairs(s@, i as int, n as nat) == Some(
                (crate::models::entry_pairs_view(fields@), j as int),
            ) && i <= j <= s@.len(),
            None => parse_entry_pairs(s@, i as int, n as nat) is None,
        },
{
    let mut out: Vec<(String, EntryType)> = Vec::new();
    let mut cur = i;
    let mut rem = n;
    proof {
        crate::models::lemma_entry_pairs_view_len(out@);
        assert(crate::models::entry_pairs_view(out@) =~= Seq::<(Seq<char>, EntryV)>::empty());
    }
    loop
        invariant
            i <= cur <= s@.len(),
            rem <= n,
            match parse_entry_pairs(s@, cur as int, rem as nat) {
                None => parse_entry_pairs(s@, i as int, n as nat) is None,
                Some((rest, jj)) => parse_entry_pairs(s@, i as int, n as nat) == Some(
                    (crate::models::entry_pairs_view(out@) + rest, jj),
                ),
            },
        decreases rem,
    {
        if rem == 0 {
            break ;
        }
        match parse_str_token(s, cur) {
            None => {
                return None;
            },
            Some((k, j1)) => {
                proof {
                    lemma_parse_str_advances(s@, cur as int);
                }
                match parse_entry_at(s, j1) {
                    None => {
                        return None;
                    },
                    Some((v, j2)) => {
                        let ghost old_out = out@;
                        let ghost kv = k@;
                        let ghost vv = v@;
                        out.push((k, v));
                        proof {
                            crate::models::lemma_entry_pairs_view_len(old_out);
                            crate::models::lemma_entry_pairs_view_len(out@);
                            assert(crate::models::entry_pairs_view(out@)
                                =~= crate::models::entry_pairs_view(old_out) + seq![(kv, vv)]);
                            assert(crate::models::entry_pairs_view(old_out) + (seq![(kv, vv)]
                                + parse_entry_pairs(s@, j2 as int, (rem - 1) as nat)->Some_0.0)
                                =~= crate::models::entry_pairs_view(out@) + parse_entry_pairs(
                                s@,
                                j2 as int,
                                (rem - 1) as nat,
                            )->Some_0.0) by {
                                if parse_entry_pairs(s@, j2 as int, (rem - 1) as nat) is Some {
                                }
                            }
                        }
                        cur = j2;
                        rem = rem - 1;
                    },
                }
            },
        }
    }
    proof {
        assert(parse_entry_pairs(s@, cur as int, 0) == Some(
            (Seq::<(Seq<char>, EntryV)>::empty(), cur as int),
        ));
        assert(crate::models::entry_pairs_view(out@) + Seq::<(Seq<char>, EntryV)>::empty()
            =~= crate::models::entry_pairs_view(out@));
    }
    Some((out, cur))
}

fn parse_opt_entry_pairs_exec(s: &str, i: usize) -> (r: Option<
    (Option<Vec<(String, EntryType)>>, usize),
>)
    ensures
        match r {
            Some((o, j)) => parse_opt_entry_pairs(s@, i as int) == Some(
                (
                    match o {
                        Some(ps) => Some(crate::models::entry_pairs_view(ps@)),
                        None => None,
                    },
                    j as int,
                ),
            ) && i < j <= s@.len(),
            None => parse_opt_entry_pairs(s@, i as int) is None,
        },
{
    let n_total = s.unicode_len();
    if i >= n_total {
        return None;
    }
    let tag = s.get_char(i);
    if tag == 'N' {
        return Some((None, i + 1));
    }
    if tag != 'S' {
        return None;
    }
    match parse_num_exec(s, i + 1) {
        None => None,
        Some((n, j)) => {
            proof {
                lemma_parse_num_advances(s@, i + 1);
            }
            match parse_entry_pairs_exec(s, j, n) {
                None => None,
                Some((fields, j2)) => Some((Some(fields), j2)),
            }
        },
    }
}

fn parse_opt_file_pairs_exec(s: &str, i: usize) -> (r: Option<
    (Option<Vec<(String, FileSystemEntry)>>, usize),
>)
    ensures
        match r {
            Some((o, j)) => parse_opt_file_pairs(s@, i as int) == Some(
                (
                    match o {
                        Some(fs) => Some(crate::models::file_pairs_view(fs@)),
                        None => None,
                    },
                    j as int,
                ),
            ) && i < j <= s@.len(),
            None => parse_opt_file_pairs(s@, i as int) is None,
        },
{
    let n_total = s.unicode_len();
    if i >= n_total {
        return None;
    }
    let tag = s.get_char(i);
    if tag == 'N' {
        return Some((None, i + 1));
    }
    if tag != 'S' {
        return None;
    }
    match parse_num_exec(s, i + 1) {
        None => None,
        Some((n, j)) => {
            proof {
                lemma_parse_num_advances(s@, i + 1);
            }
            match parse_file_pairs_exec(s, j, n) {
                None => None,
                Some((files, j2)) => Some((Some(files), j2)),
            }
        },
    }
}

/// Parse a whole text as one descriptor.
pub fn plugin_info_from_text(s: &str) -> (r: Option<PluginInfo>)
    ensures
        match r {
            Some(p) => parse_plugin_info_full(s@) == Some(p@),
            None => parse_plugin_info_full(s@) is None,
        },
{
    match parse_package_exec(s, 0) {
        None => None,
        Some((pkg, j1)) => match parse_opt_entry_pairs_exec(s, j1) {
            None => None,
            Some((placeholders, j2)) => match parse_opt_file_pairs_exec(s, j2) {
                None => None,
                Some((supporting_files, j3)) => {
                    let n = s.unicode_len();
                    if j3 == n {
                        Some(PluginInfo { plugin_info: pkg, placeholders, supporting_files })
                    } else {
                        None
                    }
                },
            },
        },
    }
}

/// Parse a whole text as one configuration record.
pub fn global_config_from_text(s: &str) -> (r: Option<GlobalConfig>)
    ensures
        match r {
            Some(c) => parse_global_config_full(s@) == Some(c@),
            None => parse_global_config_full(s@) is None,
        },
{
    match parse_str_token(s, 0) {
        None => None,
        Some((config_path, j1)) => {
            proof {
                lemma_parse_str_advances(s@, 0);
            }
            match parse_str_token(s, j1) {
                None => None,
                Some((git_repo, j2)) => {
                    proof {
                        lemma_parse_str_advances(s@, j1 as int);
                    }
                    match parse_opt_str_exec(s, j2) {
                        None => None,
                        Some((ssh_key, j3)) => match parse_bool_exec(s, j3) {
                            None => None,
                            Some((key_needs_pw, j4)) => match parse_str_token(s, j4) {
                                None => None,
                                Some((home, j5)) => {
                                    proof {
                                        lemma_parse_str_advances(s@, j4 as int);
                                    }
                                    let n = s.unicode_len();
                                    if j5 == n {
                                        Some(
                                            GlobalConfig {
                                                config_path,
                                                git_repo,
                                                ssh_key,
                                                key_needs_pw,
                                                home,
                                            },
                                        )
                                    } else {
                                        None
                                    }
                                },
                            },
                        },
                    }
                },
            }
        },
    }
}

} // verus!

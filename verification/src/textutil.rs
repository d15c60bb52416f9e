//! Small verified text helpers shared by the dictionary parsers: character
//! search, decimal parsing, lexicographic comparison, name grooming, and
//! the two pieces of text decoding taken from the standard library.

use vstd::prelude::*;
use vstd::string::StrSliceExecFns;
use vstd::string::StringExecFns;

verus! {

/// First position of `c` in `s` at or after `i`.
pub open spec fn find_char_from(s: Seq<char>, c: char, i: int) -> Option<int>
    decreases s.len() - i,
    when 0 <= i <= s.len()
{
    if i >= s.len() {
        None
    } else if s[i] == c {
        Some(i)
    } else {
        find_char_from(s, c, i + 1)
    }
}

/// What a successful or failed character search means, position by
/// position.
pub proof fn lemma_find_char_from(s: Seq<char>, c: char, i: int)
    requires
        0 <= i <= s.len(),
    ensures
        match find_char_from(s, c, i) {
            Some(e) => i <= e < s.len() && s[e] == c && forall|j: int| i <= j < e ==> s[j] != c,
            None => forall|j: int| i <= j < s.len() ==> s[j] != c,
        },
    decreases s.len() - i,
{
    if i < s.len() && s[i] != c {
        lemma_find_char_from(s, c, i + 1);
    }
}

/// Find `c` in `s` at or after position `from`, executably.
pub fn scan_char(s: &str, c: char, from: usize) -> (r: Option<usize>)
    requires
        from <= s@.len(),
    ensures
        match r {
            Some(e) => Some(e as int),
            None => None::<int>,
        } == find_char_from(s@, c, from as int),
{
    let l = s.unicode_len();
    let mut i: usize = from;
    while i < l
        invariant
            l == s@.len(),
            from <= i <= l,
            forall|j: int| from <= j < i ==> s@[j] != c,
        decreases l - i,
    {
        if s.get_char(i) == c {
            proof {
                lemma_find_char_skip(s@, c, from as int, i as int);
            }
            return Some(i);
        }
        i += 1;
    }
    proof {
        lemma_find_char_skip(s@, c, from as int, l as int);
    }
    None
}

/// Skipping over positions without `c` does not change what is found.
proof fn lemma_find_char_skip(s: Seq<char>, c: char, from: int, to: int)
    requires
        0 <= from <= to <= s.len(),
        forall|j: int| from <= j < to ==> s[j] != c,
    ensures
        find_char_from(s, c, from) == find_char_from(s, c, to),
    decreases to - from,
{
    if from < to {
        lemma_find_char_skip(s, c, from + 1, to);
    }
}

/// Whether `s` is one or more decimal digits.
pub open spec fn is_digits(s: Seq<char>) -> bool {
    s.len() > 0 && forall|i: int| 0 <= i < s.len() ==> '0' <= #[trigger] s[i] <= '9'
}

/// The value of a digit string.
pub open spec fn digits_value(s: Seq<char>) -> nat
    decreases s.len(),
{
    if s.len() == 0 {
        0
    } else {
        digits_value(s.drop_last()) * 10 + (s.last() as int - '0' as int) as nat
    }
}

/// What parsing an unsigned decimal means: an optional leading plus sign,
/// then digits, rejected when the value cannot be represented.
pub open spec fn parse_usize_spec(s: Seq<char>) -> Option<nat> {
    let body = if s.len() > 0 && s[0] == '+' {
        s.skip(1)
    } else {
        s
    };
    if is_digits(body) && digits_value(body) <= usize::MAX {
        Some(digits_value(body))
    } else {
        None
    }
}

/// A longer digit prefix never has a smaller value.
proof fn lemma_digits_prefix_monotone(s: Seq<char>, i: int, j: int)
    requires
        0 <= i <= j <= s.len(),
    ensures
        digits_value(s.take(i)) <= digits_value(s.take(j)),
    decreases j - i,
{
    if i < j {
        lemma_digits_prefix_monotone(s, i, j - 1);
        assert(s.take(j).drop_last() =~= s.take(j - 1));
    }
}

/// Parse an unsigned decimal integer, as the stored dictionary headers use
/// them: an optional plus sign and digits, within machine range.
pub fn parse_usize(s: &str) -> (r: Option<usize>)
    ensures
        match r {
            Some(n) => parse_usize_spec(s@) == Some(n as nat),
            None => parse_usize_spec(s@) is None,
        },
{
    let l = s.unicode_len();
    let start: usize = if l > 0 && s.get_char(0) == '+' {
        1
    } else {
        0
    };
    proof {
        if start == 1 {
            assert(s@.skip(1) =~= s@.subrange(1, l as int));
        } else {
            assert(s@.skip(0) =~= s@);
        }
    }
    let ghost body = if start == 1 {
        s@.skip(1)
    } else {
        s@
    };
    proof {
        assert((start == 1) == (s@.len() > 0 && s@[0] == '+'));
    }
    if start == l {
        // no digits at all
        return None;
    }
    let mut acc: usize = 0;
    let mut i: usize = start;
    while i < l
        invariant
            l == s@.len(),
            start <= i <= l,
            start <= 1,
            (start == 1) == (s@.len() > 0 && s@[0] == '+'),
            body == (if start == 1 {
                s@.skip(1)
            } else {
                s@
            }),
            body.len() == l - start,
            forall|j: int| 0 <= j < body.len() ==> body[j] == s@[j + start],
            forall|j: int| start <= j < i ==> '0' <= #[trigger] s@[j] <= '9',
            acc == digits_value(body.take(i - start)),
        decreases l - i,
    {
        let c = s.get_char(i);
        if c < '0' || c > '9' {
            proof {
                assert(body[i - start] == s@[i as int]);
                assert(!is_digits(body));
            }
            return None;
        }
        let d: usize = (c as u32 as usize) - 48;
        proof {
            assert(body.take(i + 1 - start).drop_last() =~= body.take(i - start));
            assert(body.take(i + 1 - start).last() == s@[i as int]);
        }
        if acc > (usize::MAX - d) / 10 {
            // the digits read so far already exceed the machine range, and
            // further digits can only grow the value
            proof {
                assert(acc * 10 + d > usize::MAX) by (nonlinear_arith)
                    requires
                        acc > (usize::MAX - d) / 10,
                        d <= 9,
                ;
                lemma_digits_prefix_monotone(body, i + 1 - start, body.len() as int);
                assert(body.take(body.len() as int) =~= body);
                if is_digits(body) {
                    assert(digits_value(body) > usize::MAX);
                }
            }
            return None;
        }
        proof {
            assert(acc * 10 + d <= usize::MAX) by (nonlinear_arith)
                requires
                    acc <= (usize::MAX - d) / 10,
                    d <= 9,
            ;
        }
        acc = acc * 10 + d;
        i += 1;
    }
    proof {
        assert(body.take(body.len() as int) =~= body);
        assert(is_digits(body));
    }
    Some(acc)
}

/// The decimal rendering of a number: most significant digit first, no
/// leading zeros.
pub open spec fn dec_str(n: nat) -> Seq<char>
    decreases n,
{
    if n < 10 {
        seq![(48 + n) as char]
    } else {
        dec_str(n / 10).push((48 + n % 10) as char)
    }
}

/// Render a number in decimal.
pub fn usize_to_string(n: usize) -> (r: String)
    ensures
        r@ == dec_str(n as nat),
    decreases n,
{
    let digit = n % 10;
    let digit_str: &str = match digit {
        0 => "0",
        1 => "1",
        2 => "2",
        3 => "3",
        4 => "4",
        5 => "5",
        6 => "6",
        7 => "7",
        8 => "8",
        _ => "9",
    };
    proof {
        reveal_strlit("0");
        reveal_strlit("1");
        reveal_strlit("2");
        reveal_strlit("3");
        reveal_strlit("4");
        reveal_strlit("5");
        reveal_strlit("6");
        reveal_strlit("7");
        reveal_strlit("8");
        reveal_strlit("9");
        assert(digit_str@ =~= seq![(48 + n as nat % 10) as char]);
    }
    if n < 10 {
        let mut out = String::new();
        out.append(digit_str);
        proof {
            assert(out@ =~= dec_str(n as nat));
        }
        out
    } else {
        let mut out = usize_to_string(n / 10);
        out.append(digit_str);
        proof {
            assert(out@ =~= dec_str(n as nat));
        }
        out
    }
}

/// Three-way lexicographic order on character sequences, by code point:
/// negative, zero or positive as `a` sorts before, equal to or after `b`.
pub open spec fn lex_cmp(a: Seq<char>, b: Seq<char>) -> int
    decreases a.len(),
{
    if a.len() == 0 && b.len() == 0 {
        0
    } else if a.len() == 0 {
        -1
    } else if b.len() == 0 {
        1
    } else if (a.first() as int) < (b.first() as int) {
        -1
    } else if (a.first() as int) > (b.first() as int) {
        1
    } else {
        lex_cmp(a.drop_first(), b.drop_first())
    }
}

/// Sequences compare as equal exactly when they are equal.
pub proof fn lemma_lex_cmp_eq(a: Seq<char>, b: Seq<char>)
    ensures
        (lex_cmp(a, b) == 0) <==> (a == b),
    decreases a.len(),
{
    if a.len() != 0 && b.len() != 0 && a.first() == b.first() {
        lemma_lex_cmp_eq(a.drop_first(), b.drop_first());
        if lex_cmp(a, b) == 0 {
            assert(a =~= seq![a.first()] + a.drop_first());
            assert(b =~= seq![b.first()] + b.drop_first());
        }
    } else {
        if a.len() == 0 && b.len() == 0 {
            assert(a =~= b);
        } else if a.len() != 0 && b.len() != 0 {
            assert(a.first() != b.first());
        }
    }
}

/// The lexicographic order is transitive.
pub proof fn lemma_lex_cmp_trans(a: Seq<char>, b: Seq<char>, c: Seq<char>)
    requires
        lex_cmp(a, b) < 0,
        lex_cmp(b, c) < 0,
    ensures
        lex_cmp(a, c) < 0,
    decreases a.len(),
{
    if a.len() == 0 {
        if c.len() == 0 {
            assert(b.len() > 0);
            assert(lex_cmp(b, c) > 0);
        }
    } else {
        assert(b.len() > 0);
        assert(c.len() > 0);
        let a0 = a.first() as int;
        let b0 = b.first() as int;
        let c0 = c.first() as int;
        if a0 == b0 && b0 == c0 {
            lemma_lex_cmp_trans(a.drop_first(), b.drop_first(), c.drop_first());
        }
    }
}

/// Swapping the sides flips the sign of the comparison.
pub proof fn lemma_lex_cmp_antisym(a: Seq<char>, b: Seq<char>)
    ensures
        lex_cmp(a, b) == -lex_cmp(b, a),
    decreases a.len(),
{
    if a.len() != 0 && b.len() != 0 && (a.first() as int) == (b.first() as int) {
        lemma_lex_cmp_antisym(a.drop_first(), b.drop_first());
    }
}

/// Compare two strings lexicographically by code point.
pub fn str_lex_cmp(a: &str, b: &str) -> (o: i8)
    ensures
        o == lex_cmp(a@, b@),
        -1 <= o <= 1,
    decreases a@.len(),
{
    let la = a.unicode_len();
    let lb = b.unicode_len();
    let mut i: usize = 0;
    proof {
        assert(a@.skip(0) =~= a@);
        assert(b@.skip(0) =~= b@);
    }
    loop
        invariant
            la == a@.len(),
            lb == b@.len(),
            i <= la,
            i <= lb,
            lex_cmp(a@, b@) == lex_cmp(a@.skip(i as int), b@.skip(i as int)),
        decreases la - i,
    {
        proof {
            assert(a@.skip(i as int).len() == la - i);
            assert(b@.skip(i as int).len() == lb - i);
        }
        if i >= la || i >= lb {
            if la == lb {
                return 0;
            } else if la < lb {
                return -1;
            } else {
                return 1;
            }
        }
        let ca = a.get_char(i);
        let cb = b.get_char(i);
        proof {
            assert(a@.skip(i as int).first() == a@[i as int]);
            assert(b@.skip(i as int).first() == b@[i as int]);
            assert(a@.skip(i as int).drop_first() =~= a@.skip(i + 1));
            assert(b@.skip(i as int).drop_first() =~= b@.skip(i + 1));
        }
        if (ca as u32) < (cb as u32) {
            return -1;
        }
        if (ca as u32) > (cb as u32) {
            return 1;
        }
        i += 1;
    }
}

/// Character-by-character equality of two string slices.
pub fn str_eq(a: &str, b: &str) -> (r: bool)
    ensures
        r == (a@ == b@),
{
    let la = a.unicode_len();
    let lb = b.unicode_len();
    if la != lb {
        return false;
    }
    let mut i: usize = 0;
    while i < la
        invariant
            la == a@.len(),
            lb == b@.len(),
            la == lb,
            i <= la,
            forall|j: int| 0 <= j < i ==> a@[j] == b@[j],
        decreases la - i,
    {
        if a.get_char(i) != b.get_char(i) {
            return false;
        }
        i += 1;
    }
    proof {
        assert(a@ =~= b@);
    }
    true
}

/// What grooming a folder name means: every apostrophe is removed.
pub open spec fn groomed(s: Seq<char>) -> Seq<char> {
    s.filter(|c: char| c != '\'')
}

/// One more character either joins the groomed name or is dropped.
proof fn lemma_groomed_step(s: Seq<char>)
    requires
        s.len() > 0,
    ensures
        groomed(s) == (if s.last() != '\'' {
            groomed(s.drop_last()).push(s.last())
        } else {
            groomed(s.drop_last())
        }),
{
    reveal_with_fuel(Seq::filter, 2);
}

/// Remove apostrophes from a folder name, so it is safe to use as a
/// directory component.
pub fn groom_name(folder_name: &str) -> (r: String)
    ensures
        r@ == groomed(folder_name@),
{
    let l = folder_name.unicode_len();
    let mut out = String::new();
    let mut i: usize = 0;
    while i < l
        invariant
            l == folder_name@.len(),
            i <= l,
            out@ == groomed(folder_name@.take(i as int)),
        decreases l - i,
    {
        let c = folder_name.get_char(i);
        proof {
            assert(folder_name@.take(i + 1).drop_last() =~= folder_name@.take(i as int));
            assert(folder_name@.take(i + 1).last() == folder_name@[i as int]);
            lemma_groomed_step(folder_name@.take(i + 1));
        }
        if c != '\'' {
            let piece = folder_name.substring_char(i, i + 1);
            out.append(piece);
            proof {
                assert(out@ =~= groomed(folder_name@.take(i + 1)));
            }
        }
        i += 1;
    }
    proof {
        assert(folder_name@.take(l as int) =~= folder_name@);
    }
    out
}

/// Whether a character counts as white space, as the standard library's
/// Unicode classification has it.
pub uninterp spec fn is_space(c: char) -> bool;

/// Relies on char::is_whitespace: the classification depends on the
/// character alone.
#[verifier::external_body]
pub fn char_is_whitespace(c: char) -> (r: bool)
    ensures
        r == is_space(c),
{
    c.is_whitespace()
}

/// The lowercase form of a character sequence, as the standard library's
/// Unicode lowering defines it.
pub uninterp spec fn lower_of(s: Seq<char>) -> Seq<char>;

/// Relies on str::to_lowercase: the result is a function of the characters
/// alone, and lowering the empty string gives the empty string.
#[verifier::external_body]
pub fn to_lower(s: &str) -> (r: String)
    ensures
        r@ == lower_of(s@),
        s@.len() == 0 ==> r@.len() == 0,
{
    s.to_lowercase()
}

/// The characters that a byte string decodes to, invalid sequences shown
/// as the replacement character.
pub uninterp spec fn lossy_of(s: Seq<u8>) -> Seq<char>;

/// Relies on String::from_utf8_lossy: the decoding is a function of the
/// bytes alone, and bytes below 0x80 decode to themselves.
#[verifier::external_body]
pub fn utf8_lossy(b: &Vec<u8>) -> (r: String)
    ensures
        r@ == lossy_of(b@),
        (forall|i: int| 0 <= i < b@.len() ==> b@[i] < 0x80) ==> r@ == b@.map_values(
            |x: u8| x as char,
        ),
{
    String::from_utf8_lossy(b).into_owned()
}

/// Whether a character is ASCII punctuation: the four blocks the ASCII
/// table reserves around the letters and digits.
pub open spec fn is_ascii_punct(c: char) -> bool {
    (0x21 <= c as int <= 0x2f) || (0x3a <= c as int <= 0x40) || (0x5b <= c as int <= 0x60) || (
    0x7b <= c as int <= 0x7e)
}

/// The normal form under which dictionary keys are compared: lowercased,
/// with ASCII punctuation and white space removed.
pub open spec fn key_folded(s: Seq<char>) -> Seq<char> {
    lower_of(s).filter(|c: char| !is_ascii_punct(c) && !is_space(c))
}

/// One more character either survives the folding or is dropped.
proof fn lemma_key_folded_step(s: Seq<char>)
    requires
        s.len() > 0,
    ensures
        s.filter(|c: char| !is_ascii_punct(c) && !is_space(c)) == (if !is_ascii_punct(s.last())
            && !is_space(s.last()) {
            s.drop_last().filter(|c: char| !is_ascii_punct(c) && !is_space(c)).push(s.last())
        } else {
            s.drop_last().filter(|c: char| !is_ascii_punct(c) && !is_space(c))
        }),
{
    reveal_with_fuel(Seq::filter, 2);
}

/// Normalize a lookup key: lowercase it and drop ASCII punctuation and
/// white space.
pub fn strip_punctuation(w: &str) -> (r: String)
    ensures
        r@ == key_folded(w@),
{
    let lowered = to_lower(w);
    let s = lowered.as_str();
    let l = s.unicode_len();
    let mut out = String::new();
    let mut i: usize = 0;
    while i < l
        invariant
            l == s@.len(),
            s@ == lower_of(w@),
            i <= l,
            out@ == s@.take(i as int).filter(|c: char| !is_ascii_punct(c) && !is_space(c)),
        decreases l - i,
    {
        let c = s.get_char(i);
        proof {
            assert(s@.take(i + 1).drop_last() =~= s@.take(i as int));
            assert(s@.take(i + 1).last() == s@[i as int]);
            lemma_key_folded_step(s@.take(i + 1));
        }
        let punct = (c as u32) >= 0x21 && (c as u32) <= 0x2f || (c as u32) >= 0x3a && (c as u32)
            <= 0x40 || (c as u32) >= 0x5b && (c as u32) <= 0x60 || (c as u32) >= 0x7b && (c as u32)
            <= 0x7e;
        if !punct && !char_is_whitespace(c) {
            let piece = s.substring_char(i, i + 1);
            out.append(piece);
            proof {
                assert(out@ =~= s@.take(i + 1).filter(
                    |c: char| !is_ascii_punct(c) && !is_space(c),
                ));
            }
        }
        i += 1;
    }
    proof {
        assert(s@.take(l as int) =~= s@);
    }
    out
}

/// A decoded word with the replacement characters taken back out.
pub open spec fn cleaned(s: Seq<char>) -> Seq<char> {
    s.filter(|c: char| c != '\u{fffd}')
}

/// One more character either stays in the cleaned word or is dropped.
proof fn lemma_cleaned_step(s: Seq<char>)
    requires
        s.len() > 0,
    ensures
        cleaned(s) == (if s.last() != '\u{fffd}' {
            cleaned(s.drop_last()).push(s.last())
        } else {
            cleaned(s.drop_last())
        }),
{
    reveal_with_fuel(Seq::filter, 2);
}

/// Drop every replacement character from a decoded word.
pub fn clean_word(s: &str) -> (r: String)
    ensures
        r@ == cleaned(s@),
{
    let l = s.unicode_len();
    let mut out = String::new();
    let mut i: usize = 0;
    while i < l
        invariant
            l == s@.len(),
            i <= l,
            out@ == cleaned(s@.take(i as int)),
        decreases l - i,
    {
        let c = s.get_char(i);
        proof {
            assert(s@.take(i + 1).drop_last() =~= s@.take(i as int));
            assert(s@.take(i + 1).last() == s@[i as int]);
            lemma_cleaned_step(s@.take(i + 1));
        }
        if c != '\u{fffd}' {
            let piece = s.substring_char(i, i + 1);
            out.append(piece);
            proof {
                assert(out@ =~= cleaned(s@.take(i + 1)));
            }
        }
        i += 1;
    }
    proof {
        assert(s@.take(l as int) =~= s@);
    }
    out
}

} // verus!

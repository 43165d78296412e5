//! Text as the library writes it: digits, padding and whole lines.

use vstd::prelude::*;
use vstd::string::StringExecFns;

verus! {

/// Appends one character to a string, as the standard library's `String::push` does:
/// the text is what it was, followed by the character.
pub assume_specification[ String::push ](s: &mut String, c: char)
    ensures
        final(s)@ == old(s)@.push(c),
;

/// A digit in base 16 or below, in upper case.
pub open spec fn digit(d: nat) -> char {
    if d < 10 {
        (0x30 + d) as char
    } else {
        (0x37 + d) as char
    }
}

/// A number in decimal digits, without leading zeros.
pub open spec fn decimal(n: nat) -> Seq<char>
    decreases n,
{
    if n < 10 {
        seq![digit(n)]
    } else {
        decimal(n / 10).push(digit(n % 10))
    }
}

/// A byte as two digits in base 16.
pub open spec fn hex_byte(b: u8) -> Seq<char> {
    seq![digit(b as nat / 16), digit(b as nat % 16)]
}

/// `text` with spaces in front of it up to `width` characters.
pub open spec fn right_aligned(text: Seq<char>, width: nat) -> Seq<char> {
    Seq::new(
        if text.len() < width {
            (width - text.len()) as nat
        } else {
            0
        },
        |i: int| ' ',
    ) + text
}

/// `text` with spaces behind it up to `width` characters.
pub open spec fn left_aligned(text: Seq<char>, width: nat) -> Seq<char> {
    text + Seq::new(
        if text.len() < width {
            (width - text.len()) as nat
        } else {
            0
        },
        |i: int| ' ',
    )
}

fn digit_char(d: u8) -> (c: char)
    requires
        d < 16,
    ensures
        c == digit(d as nat),
{
    if d < 10 {
        (0x30 + d) as char
    } else {
        (0x37 + d) as char
    }
}

/// Appends `n` in decimal digits.
pub fn push_decimal(out: &mut String, n: u64)
    ensures
        final(out)@ == old(out)@ + decimal(n as nat),
    decreases n,
{
    if n < 10 {
        out.push(digit_char(n as u8));
        assert(out@ =~= old(out)@ + decimal(n as nat));
    } else {
        push_decimal(out, n / 10);
        out.push(digit_char((n % 10) as u8));
        assert(out@ =~= old(out)@ + decimal(n as nat));
    }
}

/// Appends `b` as two digits in base 16.
pub fn push_hex_byte(out: &mut String, b: u8)
    ensures
        final(out)@ == old(out)@ + hex_byte(b),
{
    out.push(digit_char(b / 16));
    out.push(digit_char(b % 16));
    assert(out@ =~= old(out)@ + hex_byte(b));
}

/// `n` in decimal digits.
pub fn decimal_text(n: u64) -> (r: String)
    ensures
        r@ == decimal(n as nat),
{
    let mut out = String::new();
    push_decimal(&mut out, n);
    assert(out@ =~= decimal(n as nat));
    out
}

/// Appends as many spaces as `text` is short of `width` characters.
fn push_gap(out: &mut String, text: &str, width: usize)
    ensures
        final(out)@ == old(out)@ + Seq::new(
            if text@.len() < width {
                (width - text@.len()) as nat
            } else {
                0
            },
            |i: int| ' ',
        ),
{
    let len: usize = text.unicode_len();
    let gap: usize = if len < width {
        width - len
    } else {
        0
    };
    let mut k: usize = 0;
    assert(out@ =~= old(out)@ + Seq::new(0, |i: int| ' '));
    while k < gap
        invariant
            k <= gap,
            out@ == old(out)@ + Seq::new(k as nat, |i: int| ' '),
        decreases gap - k,
    {
        out.push(' ');
        k = k + 1;
        assert(out@ =~= old(out)@ + Seq::new(k as nat, |i: int| ' '));
    }
}

/// Appends `text`, with spaces in front of it up to `width` characters.
pub fn push_right_aligned(out: &mut String, text: &str, width: usize)
    ensures
        final(out)@ == old(out)@ + right_aligned(text@, width as nat),
{
    push_gap(out, text, width);
    out.append(text);
    assert(out@ =~= old(out)@ + right_aligned(text@, width as nat));
}

/// Appends `text`, with spaces behind it up to `width` characters.
pub fn push_left_aligned(out: &mut String, text: &str, width: usize)
    ensures
        final(out)@ == old(out)@ + left_aligned(text@, width as nat),
{
    out.append(text);
    push_gap(out, text, width);
    assert(out@ =~= old(out)@ + left_aligned(text@, width as nat));
}

/// Whether a string is this word.
pub fn is_word(s: &String, word: &str) -> (r: bool)
    ensures
        r == (s@ == word@),
{
    *s == word.to_owned()
}

/// The characters of a text.
pub fn chars_of(s: &str) -> (r: Vec<char>)
    ensures
        r@ == s@,
{
    let mut out: Vec<char> = Vec::new();
    for c in it: s.chars()
        invariant
            out@ == it.seq().take(it.index() as int),
            it.seq() == s@,
    {
        let ghost before = out@;
        out.push(c);
        assert(out@ =~= it.seq().take(it.index() as int + 1));
    }
    assert(out@ =~= s@);
    out
}

/// The text from position `from` up to position `to`.
pub fn text_of(chars: &Vec<char>, from: usize, to: usize) -> (r: String)
    requires
        from <= to <= chars@.len(),
    ensures
        r@ == chars@.subrange(from as int, to as int),
{
    let mut out = String::new();
    let mut k: usize = from;
    assert(out@ =~= chars@.subrange(from as int, from as int));
    while k < to
        invariant
            from <= k <= to <= chars@.len(),
            out@ == chars@.subrange(from as int, k as int),
        decreases to - k,
    {
        out.push(chars[k]);
        k = k + 1;
        assert(out@ =~= chars@.subrange(from as int, k as int));
    }
    out
}

/// A signed number in decimal digits.
pub open spec fn signed_decimal(n: int) -> Seq<char> {
    if n < 0 {
        seq!['-'] + decimal((-n) as nat)
    } else {
        decimal(n as nat)
    }
}

/// `n` in decimal digits, with its sign if it is negative.
pub fn signed_text(n: i64) -> (r: String)
    ensures
        r@ == signed_decimal(n as int),
{
    let mut out = String::new();
    if n < 0 {
        out.push('-');
        let size: u64 = (-(n as i128)) as u64;
        push_decimal(&mut out, size);
    } else {
        push_decimal(&mut out, n as u64);
    }
    assert(out@ =~= signed_decimal(n as int));
    out
}

/// `word` stands at position `i` of `s`.
pub open spec fn stands_at(s: Seq<char>, word: Seq<char>, i: int) -> bool {
    0 <= i && i + word.len() <= s.len() && s.subrange(i, i + word.len()) == word
}

/// The first position from `i` on at which `word` stands, or none.
pub open spec fn find_word(s: Seq<char>, word: Seq<char>, i: int) -> Option<int>
    decreases s.len() - i + 1,
{
    if i > s.len() {
        None
    } else if stands_at(s, word, i) {
        Some(i)
    } else {
        find_word(s, word, i + 1)
    }
}

fn word_is_at(s: &Vec<char>, word: &Vec<char>, i: usize) -> (r: bool)
    ensures
        r == stands_at(s@, word@, i as int),
{
    let n: usize = s.len();
    if word.len() > n || i > n - word.len() {
        return false;
    }
    let mut k: usize = 0;
    while k < word.len()
        invariant
            k <= word@.len(),
            n == s@.len(),
            i + word@.len() <= n,
            forall|j: int| 0 <= j < k ==> s@[i + j] == #[trigger] word@[j],
        decreases word@.len() - k,
    {
        if s[i + k] != word[k] {
            assert(s@.subrange(i as int, i + word@.len())[k as int] != word@[k as int]);
            return false;
        }
        k = k + 1;
    }
    assert(s@.subrange(i as int, i + word@.len()) =~= word@);
    true
}

/// The first position from `from` on at which `word` stands.
pub fn find(s: &Vec<char>, word: &Vec<char>, from: usize) -> (r: Option<usize>)
    ensures
        match r {
            Some(k) => find_word(s@, word@, from as int) == Some(k as int) && k + word@.len()
                <= s@.len() && from <= k,
            None => find_word(s@, word@, from as int) is None,
        },
{
    let mut k: usize = from;
    let ghost goal = find_word(s@, word@, from as int);
    while k < s.len()
        invariant
            from <= k,
            find_word(s@, word@, k as int) == goal,
            goal == find_word(s@, word@, from as int),
        decreases s@.len() - k,
    {
        if word_is_at(s, word, k) {
            return Some(k);
        }
        k = k + 1;
    }
    if k == s.len() && word_is_at(s, word, k) {
        return Some(k);
    }
    proof {
        reveal_with_fuel(find_word, 2);
    }
    None
}

/// A white-space character.
pub open spec fn is_white(c: char) -> bool {
    let n = c as u32;
    9 <= n <= 13 || n == 0x20 || n == 0x85 || n == 0xA0 || n == 0x1680 || 0x2000 <= n <= 0x200A
        || n == 0x2028 || n == 0x2029 || n == 0x202F || n == 0x205F || n == 0x3000
}

fn white(c: char) -> (r: bool)
    ensures
        r == is_white(c),
{
    let n: u32 = c as u32;
    9 <= n && n <= 13 || n == 0x20 || n == 0x85 || n == 0xA0 || n == 0x1680 || 0x2000 <= n && n
        <= 0x200A || n == 0x2028 || n == 0x2029 || n == 0x202F || n == 0x205F || n == 0x3000
}

/// `s` without the characters that satisfy `drop` at either end.
pub open spec fn trimmed(s: Seq<char>, drop: spec_fn(char) -> bool) -> Seq<char>
    decreases s.len(),
{
    if s.len() > 0 && drop(s[0]) {
        trimmed(s.drop_first(), drop)
    } else if s.len() > 0 && drop(s.last()) {
        trimmed(s.drop_last(), drop)
    } else {
        s
    }
}

/// White space at either end is gone.
pub open spec fn without_blanks(s: Seq<char>) -> Seq<char> {
    trimmed(s, |c: char| is_white(c))
}

/// Quotes at either end are gone.
pub open spec fn without_quotes(s: Seq<char>) -> Seq<char> {
    trimmed(s, |c: char| c == '"')
}

/// The part of `from..to` that is left without white space, or without quotes, at either
/// end.
pub fn trim(s: &Vec<char>, from: usize, to: usize, quotes: bool) -> (r: (usize, usize))
    requires
        from <= to <= s@.len(),
    ensures
        from <= r.0 <= r.1 <= to,
        s@.subrange(r.0 as int, r.1 as int) == if quotes {
            without_quotes(s@.subrange(from as int, to as int))
        } else {
            without_blanks(s@.subrange(from as int, to as int))
        },
{
    let ghost drop: spec_fn(char) -> bool = if quotes {
        |c: char| c == '"'
    } else {
        |c: char| is_white(c)
    };
    let ghost goal = trimmed(s@.subrange(from as int, to as int), drop);
    let mut a: usize = from;
    let mut b: usize = to;
    loop
        invariant
            from <= a <= b <= to <= s@.len(),
            drop == if quotes {
                |c: char| c == '"'
            } else {
                |c: char| is_white(c)
            },
            goal == trimmed(s@.subrange(from as int, to as int), drop),
            trimmed(s@.subrange(a as int, b as int), drop) == goal,
        decreases b - a,
    {
        let ghost here = s@.subrange(a as int, b as int);
        if a < b && (if quotes {
            s[a] == '"'
        } else {
            white(s[a])
        }) {
            assert(here[0] == s@[a as int]);
            assert(here.drop_first() =~= s@.subrange(a + 1, b as int));
            a = a + 1;
        } else if a < b && (if quotes {
            s[b - 1] == '"'
        } else {
            white(s[b - 1])
        }) {
            assert(here[0] == s@[a as int]);
            assert(here.last() == s@[b - 1]);
            assert(here.drop_last() =~= s@.subrange(a as int, b - 1));
            b = b - 1;
        } else {
            if a < b {
                assert(here[0] == s@[a as int]);
                assert(here.last() == s@[b - 1]);
            }
            return (a, b);
        }
    }
}

/// The number that decimal digits stand for, most significant first.
pub open spec fn decimal_value(s: Seq<char>) -> int
    decreases s.len(),
{
    if s.len() == 0 {
        0
    } else {
        10 * decimal_value(s.drop_last()) + (s.last() as int - '0' as int)
    }
}

/// A number reads back from its decimal digits. There are only digits, and none in vain: the
/// first one is 0 only where the number is.
pub proof fn law_decimals_read_back(n: nat)
    ensures
        decimal_value(decimal(n)) == n,
        decimal(n).len() > 0,
        forall|i: int| 0 <= i < decimal(n).len() ==> '0' <= #[trigger] decimal(n)[i] <= '9',
        decimal(n)[0] == '0' ==> n == 0,
    decreases n,
{
    reveal_with_fuel(decimal_value, 2);
    if n < 10 {
        let s = decimal(n);
        assert(s.drop_last() =~= seq![]);
        assert(s[0] == digit(n));
    } else {
        law_decimals_read_back(n / 10);
        let s = decimal(n);
        let front = decimal(n / 10);
        assert(s.drop_last() =~= front);
        assert(s[0] == front[0]);
        assert forall|i: int| 0 <= i < s.len() implies '0' <= #[trigger] s[i] <= '9' by {
            if i < front.len() {
                assert(s[i] == front[i]);
            }
        }
    }
}

/// A negative number is written as a minus sign and its size, any other as it is.
pub proof fn law_signs_are_written(n: int)
    ensures
        n >= 0 ==> signed_decimal(n) == decimal(n as nat),
        n < 0 ==> signed_decimal(n)[0] == '-' && signed_decimal(n).skip(1) == decimal((-n) as nat),
{
    if n < 0 {
        assert(signed_decimal(n).skip(1) =~= decimal((-n) as nat));
    }
}

/// The value of a digit in base 16, in upper case.
pub open spec fn hex_value(c: char) -> int {
    if '0' <= c <= '9' {
        c as int - '0' as int
    } else {
        10 + c as int - 'A' as int
    }
}

/// A byte reads back from its two digits in base 16.
pub proof fn law_bytes_read_back(b: u8)
    ensures
        hex_byte(b).len() == 2,
        16 * hex_value(hex_byte(b)[0]) + hex_value(hex_byte(b)[1]) == b,
        forall|i: int|
            0 <= i < 2 ==> '0' <= #[trigger] hex_byte(b)[i] <= '9' || 'A' <= hex_byte(b)[i] <= 'F',
{
}

/// Alignment keeps the text and adds nothing but spaces, just as many as it is short of the
/// width: in front of it or behind it.
pub proof fn law_alignment_fills_with_spaces(text: Seq<char>, width: nat)
    ensures
        ({
            let wide = if text.len() < width {
                width
            } else {
                text.len()
            };
            let gap = wide - text.len();
            let r = right_aligned(text, width);
            let l = left_aligned(text, width);
            &&& r.len() == wide && l.len() == wide
            &&& r.skip(gap) == text && l.take(text.len() as int) == text
            &&& forall|i: int| 0 <= i < gap ==> #[trigger] r[i] == ' '
            &&& forall|i: int| text.len() <= i < wide ==> #[trigger] l[i] == ' '
        }),
{
    let wide = if text.len() < width {
        width
    } else {
        text.len()
    };
    assert(right_aligned(text, width).skip(wide - text.len()) =~= text);
    assert(left_aligned(text, width).take(text.len() as int) =~= text);
}

/// A search finds the first place: the word stands there character for character, and at no
/// earlier place from the start on; where it finds none, the word stands nowhere from there
/// on.
pub proof fn law_searches_find_the_first_place(s: Seq<char>, word: Seq<char>, i: int)
    requires
        i >= 0,
    ensures
        match find_word(s, word, i) {
            Some(k) => {
                &&& i <= k
                &&& k + word.len() <= s.len()
                &&& forall|j: int| 0 <= j < word.len() ==> s[k + j] == #[trigger] word[j]
                &&& forall|e: int| i <= e < k ==> !#[trigger] matches_at(s, word, e)
            },
            None => forall|e: int| i <= e ==> !#[trigger] matches_at(s, word, e),
        },
    decreases s.len() - i + 1,
{
    if i <= s.len() {
        lemma_stands(s, word, i);
        if !stands_at(s, word, i) {
            law_searches_find_the_first_place(s, word, i + 1);
        } else {
            assert(matches_at(s, word, i));
        }
    }
}

/// The characters of `word` are those of `s` from position `e` on.
pub open spec fn matches_at(s: Seq<char>, word: Seq<char>, e: int) -> bool {
    e + word.len() <= s.len() && forall|j: int| 0 <= j < word.len() ==> s[e + j] == #[trigger] word[j]
}

proof fn lemma_stands(s: Seq<char>, word: Seq<char>, i: int)
    requires
        i >= 0,
    ensures
        stands_at(s, word, i) <==> matches_at(s, word, i),
{
    if i + word.len() <= s.len() {
        let sub = s.subrange(i, i + word.len());
        if matches_at(s, word, i) {
            assert(sub =~= word);
        }
        if sub == word {
            assert forall|j: int| 0 <= j < word.len() implies s[i + j] == #[trigger] word[j] by {
                assert(sub[j] == s[i + j]);
            }
        }
    }
}

/// Trimming cuts off both ends and nothing else: what is left is a stretch of the text, all
/// that was cut off was to go, and what is left neither begins nor ends with such a
/// character.
pub proof fn law_trimming_cuts_the_ends(s: Seq<char>, drop: spec_fn(char) -> bool) -> (cut: (
    int,
    int,
))
    ensures
        ({
            let (a, b) = cut;
            let t = trimmed(s, drop);
            &&& 0 <= a <= b <= s.len()
            &&& t == s.subrange(a, b)
            &&& forall|i: int| 0 <= i < a ==> drop(#[trigger] s[i])
            &&& forall|i: int| b <= i < s.len() ==> drop(#[trigger] s[i])
            &&& t.len() > 0 ==> !drop(t[0]) && !drop(t[t.len() - 1])
        }),
    decreases s.len(),
{
    if s.len() > 0 && drop(s[0]) {
        let rest = s.drop_first();
        let (a, b) = law_trimming_cuts_the_ends(rest, drop);
        assert(s.subrange(a + 1, b + 1) =~= rest.subrange(a, b));
        assert forall|i: int| 0 <= i < a + 1 implies drop(#[trigger] s[i]) by {
            if i > 0 {
                assert(rest[i - 1] == s[i]);
            }
        }
        assert forall|i: int| b + 1 <= i < s.len() implies drop(#[trigger] s[i]) by {
            assert(rest[i - 1] == s[i]);
        }
        (a + 1, b + 1)
    } else if s.len() > 0 && drop(s.last()) {
        let rest = s.drop_last();
        let (a, b) = law_trimming_cuts_the_ends(rest, drop);
        assert(s.subrange(a, b) =~= rest.subrange(a, b));
        assert forall|i: int| 0 <= i < a implies drop(#[trigger] s[i]) by {
            assert(rest[i] == s[i]);
        }
        assert forall|i: int| b <= i < s.len() implies drop(#[trigger] s[i]) by {
            if i < rest.len() {
                assert(rest[i] == s[i]);
            }
        }
        (a, b)
    } else {
        assert(s.subrange(0, s.len() as int) =~= s);
        (0, s.len() as int)
    }
}

/// Blanks are white space and quotes are quotes: of the characters of one byte the blanks
/// are the tabulators and line feeds, the space, the next line and the no-break space.
pub proof fn law_blanks_and_quotes(c: char, s: Seq<char>)
    requires
        (c as u32) < 0x100,
    ensures
        is_white(c) <==> c == ' ' || c == '\t' || c == '\n' || c == '\r' || c as u32 == 0x0B || c
            as u32 == 0x0C || c as u32 == 0x85 || c as u32 == 0xA0,
        without_blanks(s) == trimmed(s, |x: char| is_white(x)),
        without_quotes(s) == trimmed(s, |x: char| x == '"'),
{
}

} // verus!

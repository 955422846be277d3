//! Character-level text handling: Unicode character classes (taken from std),
//! UTF-8 byte widths, normalisation to grid letters, word splitting,
//! trimming, ASCII lower-casing and decimal rendering of counters.
use vstd::prelude::*;

verus! {

// ---------------------------------------------------------------------------
// Unicode character classes and case mapping (std, named results)
// ---------------------------------------------------------------------------

/// Unicode `Alphabetic` property of a char, as `char::is_alphabetic` reports it.
pub uninterp spec fn char_is_alphabetic(c: char) -> bool;

/// `Alphabetic` or `Numeric`, as `char::is_alphanumeric` reports it.
pub uninterp spec fn char_is_alphanumeric(c: char) -> bool;

/// Unicode `White_Space` property, as `char::is_whitespace` reports it.
pub uninterp spec fn char_is_whitespace(c: char) -> bool;

/// The full upper-case mapping of a char, as `char::to_uppercase` yields it.
pub uninterp spec fn char_to_uppercase(c: char) -> Seq<char>;

/// An ASCII letter.
pub open spec fn is_ascii_letter(c: char) -> bool {
    ('a' <= c && c <= 'z') || ('A' <= c && c <= 'Z')
}

/// An ASCII digit.
pub open spec fn is_ascii_digit(c: char) -> bool {
    '0' <= c && c <= '9'
}

/// Calls `char::is_alphabetic`; its result is the named property of `c`
/// (the Unicode tables behind it are not restated here): ASCII letters
/// have it, ASCII digits and the space do not.
#[verifier::external_body]
pub(crate) fn is_alphabetic(c: char) -> (r: bool)
    ensures
        r == char_is_alphabetic(c),
        is_ascii_letter(c) ==> r,
        is_ascii_digit(c) || c == ' ' ==> !r,
{
    c.is_alphabetic()
}

/// Calls `char::is_alphanumeric`; its result is the named property of `c`,
/// which std documents to hold of every alphabetic char.
#[verifier::external_body]
pub(crate) fn is_alphanumeric(c: char) -> (r: bool)
    ensures
        r == char_is_alphanumeric(c),
        char_is_alphabetic(c) ==> r,
        is_ascii_digit(c) ==> r,
        c == ' ' ==> !r,
{
    c.is_alphanumeric()
}

/// Calls `char::is_whitespace`; its result is the named property of `c`:
/// the space has it, ASCII letters and digits do not.
#[verifier::external_body]
pub(crate) fn is_whitespace(c: char) -> (r: bool)
    ensures
        r == char_is_whitespace(c),
        c == ' ' ==> r,
        is_ascii_letter(c) || is_ascii_digit(c) ==> !r,
{
    c.is_whitespace()
}

/// Calls `char::to_uppercase` and collects the chars it yields; the result is
/// the named mapping of `c`, which std documents to be at least one char.
#[verifier::external_body]
pub(crate) fn to_uppercase(c: char) -> (r: Vec<char>)
    ensures
        r@ == char_to_uppercase(c),
        r@.len() >= 1,
        'a' <= c <= 'z' ==> r@ == seq![((c as u32) - 32) as char],
        'A' <= c <= 'Z' ==> r@ == seq![c],
{
    c.to_uppercase().collect()
}

/// `String::push` appends one char.
pub assume_specification[ String::push ](s: &mut String, ch: char)
    ensures
        final(s)@ == old(s)@.push(ch),
;

// ---------------------------------------------------------------------------
// UTF-8 byte widths
// ---------------------------------------------------------------------------

/// Number of bytes in the UTF-8 encoding of `c`.
pub open spec fn char_width(c: char) -> nat {
    if (c as u32) < 0x80 {
        1
    } else if (c as u32) < 0x800 {
        2
    } else if (c as u32) < 0x10000 {
        3
    } else {
        4
    }
}

/// Number of bytes in the UTF-8 encoding of `s` (what `str::len` reports).
pub open spec fn byte_len(s: Seq<char>) -> nat
    decreases s.len(),
{
    if s.len() == 0 {
        0
    } else {
        char_width(s[0]) + byte_len(s.drop_first())
    }
}

pub proof fn lemma_byte_len_concat(a: Seq<char>, b: Seq<char>)
    ensures
        byte_len(a + b) == byte_len(a) + byte_len(b),
    decreases a.len(),
{
    if a.len() == 0 {
        assert(a + b =~= b);
    } else {
        assert((a + b).drop_first() =~= a.drop_first() + b);
        lemma_byte_len_concat(a.drop_first(), b);
    }
}

pub proof fn lemma_byte_len_push(s: Seq<char>, c: char)
    ensures
        byte_len(s.push(c)) == byte_len(s) + char_width(c),
{
    assert(s.push(c) =~= s + seq![c]);
    lemma_byte_len_concat(s, seq![c]);
    assert(seq![c].drop_first() =~= Seq::<char>::empty());
    reveal_with_fuel(byte_len, 2);
}

pub proof fn lemma_byte_len_ge_len(s: Seq<char>)
    ensures
        byte_len(s) >= s.len(),
    decreases s.len(),
{
    if s.len() > 0 {
        lemma_byte_len_ge_len(s.drop_first());
    }
}

/// Byte offsets of char positions grow strictly with the position.
pub proof fn lemma_byte_len_take_strict(s: Seq<char>, j: int, k: int)
    requires
        0 <= j <= k <= s.len(),
    ensures
        byte_len(s.take(j)) <= byte_len(s.take(k)),
        j < k ==> byte_len(s.take(j)) < byte_len(s.take(k)),
        byte_len(s.take(k)) <= byte_len(s),
{
    assert(s.take(k) =~= s.take(j) + s.subrange(j, k));
    lemma_byte_len_concat(s.take(j), s.subrange(j, k));
    lemma_byte_len_ge_len(s.subrange(j, k));
    assert(s =~= s.take(k) + s.skip(k));
    lemma_byte_len_concat(s.take(k), s.skip(k));
}

/// `byte_len` is the length of vstd's UTF-8 encoding.
pub proof fn lemma_byte_len_is_encoding_len(s: Seq<char>)
    ensures
        vstd::utf8::encode_utf8(s).len() == byte_len(s),
    decreases s.len(),
{
    broadcast use vstd::utf8::char_is_scalar;

    if s.len() > 0 {
        lemma_byte_len_is_encoding_len(s.drop_first());
        vstd::utf8::char_is_scalar(s[0]);
    }
}

/// The byte length of a string slice.
pub fn str_byte_len(s: &str) -> (n: usize)
    ensures
        n == byte_len(s@),
{
    proof {
        lemma_byte_len_is_encoding_len(s@);
    }
    let bytes = s.as_bytes();
    bytes.len()
}

/// UTF-8 width of one char.
pub fn width_of(c: char) -> (n: usize)
    ensures
        n == char_width(c),
{
    let v = c as u32;
    if v < 0x80 {
        1
    } else if v < 0x800 {
        2
    } else if v < 0x10000 {
        3
    } else {
        4
    }
}

/// Byte length of `v`, or `cap + 1` when it exceeds `cap`.
pub fn byte_len_capped(v: &Vec<char>, cap: usize) -> (n: usize)
    requires
        cap < usize::MAX,
    ensures
        byte_len(v@) <= cap ==> n == byte_len(v@),
        byte_len(v@) > cap ==> n == cap + 1,
{
    let mut total: usize = 0;
    let mut i: usize = 0;
    while i < v.len()
        invariant
            i <= v.len(),
            cap < usize::MAX,
            total <= cap,
            total == byte_len(v@.take(i as int)),
        decreases v.len() - i,
    {
        let w = width_of(v[i]);
        proof {
            assert(v@.take(i + 1) =~= v@.take(i as int).push(v@[i as int]));
            lemma_byte_len_push(v@.take(i as int), v@[i as int]);
        }
        if w > cap - total {
            proof {
                lemma_byte_len_take_strict(v@, i + 1, v.len() as int);
                assert(v@.take(v.len() as int) =~= v@);
            }
            return cap + 1;
        }
        total = total + w;
        i = i + 1;
    }
    assert(v@.take(v.len() as int) =~= v@);
    total
}

/// Byte offset of every char position of `v`: `r[k]` is the byte length of
/// the first `k` chars.
pub fn byte_offsets(v: &Vec<char>) -> (r: Vec<usize>)
    requires
        byte_len(v@) <= usize::MAX,
    ensures
        r@.len() == v@.len() + 1,
        forall|k: int| 0 <= k <= v@.len() ==> #[trigger] r@[k] == byte_len(v@.take(k)),
{
    let mut r: Vec<usize> = Vec::new();
    r.push(0);
    let mut total: usize = 0;
    let mut i: usize = 0;
    assert(v@.take(0) =~= Seq::<char>::empty());
    while i < v.len()
        invariant
            i <= v.len(),
            byte_len(v@) <= usize::MAX,
            r@.len() == i + 1,
            total == byte_len(v@.take(i as int)),
            forall|k: int| 0 <= k <= i ==> #[trigger] r@[k] == byte_len(v@.take(k)),
        decreases v.len() - i,
    {
        let w = width_of(v[i]);
        proof {
            assert(v@.take(i + 1) =~= v@.take(i as int).push(v@[i as int]));
            lemma_byte_len_push(v@.take(i as int), v@[i as int]);
            lemma_byte_len_take_strict(v@, i + 1, v.len() as int);
        }
        total = total + w;
        r.push(total);
        i = i + 1;
    }
    r
}

// ---------------------------------------------------------------------------
// Conversions between strings and char vectors
// ---------------------------------------------------------------------------

/// The chars of a string slice.
pub fn chars_of(s: &str) -> (v: Vec<char>)
    ensures
        v@ == s@,
{
    let mut v: Vec<char> = Vec::new();
    for c in it: s.chars()
        invariant
            v@ == it.seq().take(it.index()),
            it.seq() == s@,
    {
        v.push(c);
    }
    v
}

/// A string holding the chars of `v`.
pub fn string_of(v: &Vec<char>) -> (s: String)
    ensures
        s@ == v@,
{
    let mut s = String::new();
    for i in 0..v.len()
        invariant
            s@ == v@.take(i as int),
    {
        s.push(v[i]);
        assert(v@.take(i + 1) =~= v@.take(i as int).push(v@[i as int]));
    }
    assert(v@.take(v.len() as int) =~= v@);
    s
}

/// Appends the chars of `w` to `out`.
pub fn push_all(out: &mut Vec<char>, w: &Vec<char>)
    ensures
        final(out)@ == old(out)@ + w@,
{
    let ghost start = out@;
    for i in 0..w.len()
        invariant
            out@ == start + w@.take(i as int),
    {
        out.push(w[i]);
        assert(w@.take(i + 1) =~= w@.take(i as int).push(w@[i as int]));
    }
    assert(w@.take(w.len() as int) =~= w@);
}

/// Appends the chars of the string slice `s` to `out`.
pub fn push_str(out: &mut Vec<char>, s: &str)
    ensures
        final(out)@ == old(out)@ + s@,
{
    let w = chars_of(s);
    push_all(out, &w);
}

/// The chars of `v` from position `a` up to (not including) `b`.
pub fn slice_chars(v: &Vec<char>, a: usize, b: usize) -> (r: Vec<char>)
    requires
        a <= b <= v@.len(),
    ensures
        r@ == v@.subrange(a as int, b as int),
{
    let mut r: Vec<char> = Vec::new();
    let mut i = a;
    while i < b
        invariant
            a <= i <= b <= v@.len(),
            r@ == v@.subrange(a as int, i as int),
        decreases b - i,
    {
        r.push(v[i]);
        assert(v@.subrange(a as int, i + 1) =~= v@.subrange(a as int, i as int).push(
            v@[i as int],
        ));
        i = i + 1;
    }
    r
}

/// Whether `w` holds exactly the chars of `lit`.
pub fn chars_eq_str(w: &Vec<char>, lit: &str) -> (r: bool)
    ensures
        r == (w@ == lit@),
{
    let l = chars_of(lit);
    chars_eq(w, &l)
}

/// Whether two char vectors are equal.
pub fn chars_eq(a: &Vec<char>, b: &Vec<char>) -> (r: bool)
    ensures
        r == (a@ == b@),
{
    if a.len() != b.len() {
        return false;
    }
    let mut i: usize = 0;
    while i < a.len()
        invariant
            i <= a.len(),
            a.len() == b.len(),
            forall|k: int| 0 <= k < i ==> a@[k] == b@[k],
        decreases a.len() - i,
    {
        if a[i] != b[i] {
            return false;
        }
        i = i + 1;
    }
    assert(a@ =~= b@);
    true
}

// ---------------------------------------------------------------------------
// Normalisation to grid letters
// ---------------------------------------------------------------------------

/// The grid form of a text: its alphabetic chars, each replaced by its
/// upper-case mapping, everything else dropped.
pub open spec fn normalize(s: Seq<char>) -> Seq<char>
    decreases s.len(),
{
    if s.len() == 0 {
        Seq::empty()
    } else {
        normalize(s.drop_last()) + (if char_is_alphabetic(s.last()) {
            char_to_uppercase(s.last())
        } else {
            Seq::empty()
        })
    }
}

pub proof fn lemma_normalize_concat(a: Seq<char>, b: Seq<char>)
    ensures
        normalize(a + b) == normalize(a) + normalize(b),
    decreases b.len(),
{
    if b.len() == 0 {
        assert(a + b =~= a);
        assert(normalize(b) =~= Seq::<char>::empty());
        assert(normalize(a) + normalize(b) =~= normalize(a));
    } else {
        assert((a + b).drop_last() =~= a + b.drop_last());
        assert((a + b).last() == b.last());
        lemma_normalize_concat(a, b.drop_last());
        let tail = if char_is_alphabetic(b.last()) {
            char_to_uppercase(b.last())
        } else {
            Seq::<char>::empty()
        };
        assert(normalize(a) + normalize(b.drop_last()) + tail =~= normalize(a) + (normalize(
            b.drop_last(),
        ) + tail));
    }
}

/// A char's classification as the grid form reads it: whether it is
/// alphabetic, and its upper-case mapping.
pub open spec fn class_view(c: (bool, Vec<char>)) -> (bool, Seq<char>) {
    (c.0, c.1@)
}

pub open spec fn classes_view(v: Seq<(bool, Vec<char>)>) -> Seq<(bool, Seq<char>)> {
    v.map_values(|c: (bool, Vec<char>)| class_view(c))
}

/// `cls` classifies the chars of `s` as std does: whether each is
/// alphabetic and, for those that are, the upper-case mapping.
pub open spec fn classified(cls: Seq<(bool, Seq<char>)>, s: Seq<char>) -> bool {
    &&& cls.len() == s.len()
    &&& forall|i: int|
        0 <= i < s.len() ==> (#[trigger] cls[i]).0 == char_is_alphabetic(s[i]) && (cls[i].0 ==> cls[i].1
            == char_to_uppercase(s[i]))
}

/// The grid letters of classified chars: the upper-case mappings of the
/// alphabetic ones, in order.
pub open spec fn letters_of(cls: Seq<(bool, Seq<char>)>) -> Seq<char>
    decreases cls.len(),
{
    if cls.len() == 0 {
        Seq::empty()
    } else {
        letters_of(cls.drop_last()) + (if cls.last().0 {
            cls.last().1
        } else {
            Seq::empty()
        })
    }
}

/// The grid form is the grid letters of the chars as std classifies them.
pub proof fn lemma_normalize_letters(cls: Seq<(bool, Seq<char>)>, s: Seq<char>)
    requires
        classified(cls, s),
    ensures
        normalize(s) == letters_of(cls),
    decreases s.len(),
{
    if s.len() > 0 {
        assert(classified(cls.drop_last(), s.drop_last())) by {
            assert forall|i: int| 0 <= i < s.drop_last().len() implies (#[trigger] cls.drop_last()[i]).0
                == char_is_alphabetic(s.drop_last()[i]) && (cls.drop_last()[i].0 ==> cls.drop_last()[i].1
                == char_to_uppercase(s.drop_last()[i])) by {
                let _ = cls[i];
            }
        }
        lemma_normalize_letters(cls.drop_last(), s.drop_last());
        let _ = cls[s.len() - 1];
    }
}

/// The grid letters of chars classified by the caller (see `letters_of`).
pub fn grid_letters(classes: &Vec<(bool, Vec<char>)>) -> (r: Vec<char>)
    ensures
        r@ == letters_of(classes_view(classes@)),
{
    let ghost cv = classes_view(classes@);
    let mut r: Vec<char> = Vec::new();
    let mut i: usize = 0;
    assert(cv.take(0) =~= Seq::<(bool, Seq<char>)>::empty());
    while i < classes.len()
        invariant
            i <= classes.len(),
            cv == classes_view(classes@),
            r@ == letters_of(cv.take(i as int)),
        decreases classes.len() - i,
    {
        assert(cv.take(i + 1).drop_last() =~= cv.take(i as int));
        assert(cv[i as int] == class_view(classes@[i as int]));
        if classes[i].0 {
            push_all(&mut r, &classes[i].1);
        }
        i = i + 1;
    }
    assert(cv.take(classes.len() as int) =~= cv);
    r
}

/// Normalises a char vector (see `normalize`): classifies each char with
/// std, then keeps the grid letters.
pub fn normalize_chars(v: &Vec<char>) -> (r: Vec<char>)
    ensures
        r@ == normalize(v@),
{
    let mut classes: Vec<(bool, Vec<char>)> = Vec::new();
    let mut i: usize = 0;
    while i < v.len()
        invariant
            i <= v.len(),
            classified(classes_view(classes@), v@.take(i as int)),
        decreases v.len() - i,
    {
        let c = v[i];
        let ghost before = classes@;
        let alphabetic = is_alphabetic(c);
        let upper = if alphabetic {
            to_uppercase(c)
        } else {
            Vec::new()
        };
        classes.push((alphabetic, upper));
        assert forall|k: int| 0 <= k < i + 1 implies (#[trigger] classes_view(classes@)[k]).0
            == char_is_alphabetic(v@.take(i + 1)[k]) && (classes_view(classes@)[k].0 ==> classes_view(
            classes@,
        )[k].1 == char_to_uppercase(v@.take(i + 1)[k])) by {
            if k < i {
                assert(classes@[k] == before[k]);
                let _ = classes_view(before)[k];
            }
        }
        i = i + 1;
    }
    assert(v@.take(v.len() as int) =~= v@);
    proof {
        lemma_normalize_letters(classes_view(classes@), v@);
    }
    grid_letters(&classes)
}

/// Normalises a text for the grid: keeps alphabetic characters only and
/// turns them to upper case (`"d'Amour 123"` becomes `"DAMOUR"`).
pub fn normalize_for_grid(text: &str) -> (r: String)
    ensures
        r@ == normalize(text@),
{
    let v = chars_of(text);
    let n = normalize_chars(&v);
    string_of(&n)
}

// ---------------------------------------------------------------------------
// ASCII lower case and filler words
// ---------------------------------------------------------------------------

pub open spec fn is_ascii_upper(c: char) -> bool {
    'A' <= c && c <= 'Z'
}

/// `char::to_ascii_lowercase` on one char.
pub open spec fn ascii_lower_char(c: char) -> char {
    if is_ascii_upper(c) {
        (((c as u32) + 32) as u8) as char
    } else {
        c
    }
}

/// `str::to_ascii_lowercase`: ASCII upper-case letters lowered, all else kept.
pub open spec fn ascii_lower(s: Seq<char>) -> Seq<char> {
    s.map_values(|c: char| ascii_lower_char(c))
}

pub fn lower_char(c: char) -> (r: char)
    ensures
        r == ascii_lower_char(c),
{
    if c >= 'A' && c <= 'Z' {
        (((c as u32) + 32) as u8) as char
    } else {
        c
    }
}

pub fn lower_chars(v: &Vec<char>) -> (r: Vec<char>)
    ensures
        r@ == ascii_lower(v@),
{
    let mut r: Vec<char> = Vec::new();
    for i in 0..v.len()
        invariant
            r@.len() == i,
            forall|k: int| 0 <= k < i ==> r@[k] == ascii_lower_char(#[trigger] v@[k]),
    {
        r.push(lower_char(v[i]));
    }
    assert(r@ =~= ascii_lower(v@));
    r
}

/// The words that carry no meaning of their own in a clue.
#[verifier::opaque]
pub open spec fn is_filler_word(w: Seq<char>) -> bool {
    ||| w == "a"@
    ||| w == "an"@
    ||| w == "and"@
    ||| w == "are"@
    ||| w == "as"@
    ||| w == "at"@
    ||| w == "be"@
    ||| w == "but"@
    ||| w == "by"@
    ||| w == "did"@
    ||| w == "do"@
    ||| w == "does"@
    ||| w == "for"@
    ||| w == "from"@
    ||| w == "had"@
    ||| w == "has"@
    ||| w == "have"@
    ||| w == "he"@
    ||| w == "her"@
    ||| w == "him"@
    ||| w == "his"@
    ||| w == "i"@
    ||| w == "if"@
    ||| w == "in"@
    ||| w == "into"@
    ||| w == "is"@
    ||| w == "it"@
    ||| w == "its"@
    ||| w == "me"@
    ||| w == "my"@
    ||| w == "of"@
    ||| w == "oh"@
    ||| w == "on"@
    ||| w == "or"@
    ||| w == "our"@
    ||| w == "out"@
    ||| w == "she"@
    ||| w == "so"@
    ||| w == "than"@
    ||| w == "that"@
    ||| w == "the"@
    ||| w == "their"@
    ||| w == "them"@
    ||| w == "they"@
    ||| w == "this"@
    ||| w == "to"@
    ||| w == "up"@
    ||| w == "us"@
    ||| w == "was"@
    ||| w == "we"@
    ||| w == "were"@
    ||| w == "what"@
    ||| w == "when"@
    ||| w == "who"@
    ||| w == "with"@
    ||| w == "you"@
    ||| w == "your"@
}

/// Whether the (already lower-cased) word is a filler word.
pub fn filler_word(w: &Vec<char>) -> (r: bool)
    ensures
        r == is_filler_word(w@),
{
    reveal(is_filler_word);
    chars_eq_str(w, "a") || chars_eq_str(w, "an") || chars_eq_str(w, "and") || chars_eq_str(
        w,
        "are",
    ) || chars_eq_str(w, "as") || chars_eq_str(w, "at") || chars_eq_str(w, "be")
        || chars_eq_str(w, "but") || chars_eq_str(w, "by") || chars_eq_str(w, "did")
        || chars_eq_str(w, "do") || chars_eq_str(w, "does") || chars_eq_str(w, "for")
        || chars_eq_str(w, "from") || chars_eq_str(w, "had") || chars_eq_str(w, "has")
        || chars_eq_str(w, "have") || chars_eq_str(w, "he") || chars_eq_str(w, "her")
        || chars_eq_str(w, "him") || chars_eq_str(w, "his") || chars_eq_str(w, "i")
        || chars_eq_str(w, "if") || chars_eq_str(w, "in") || chars_eq_str(w, "into")
        || chars_eq_str(w, "is") || chars_eq_str(w, "it") || chars_eq_str(w, "its")
        || chars_eq_str(w, "me") || chars_eq_str(w, "my") || chars_eq_str(w, "of")
        || chars_eq_str(w, "oh") || chars_eq_str(w, "on") || chars_eq_str(w, "or")
        || chars_eq_str(w, "our") || chars_eq_str(w, "out") || chars_eq_str(w, "she")
        || chars_eq_str(w, "so") || chars_eq_str(w, "than") || chars_eq_str(w, "that")
        || chars_eq_str(w, "the") || chars_eq_str(w, "their") || chars_eq_str(w, "them")
        || chars_eq_str(w, "they") || chars_eq_str(w, "this") || chars_eq_str(w, "to")
        || chars_eq_str(w, "up") || chars_eq_str(w, "us") || chars_eq_str(w, "was")
        || chars_eq_str(w, "we") || chars_eq_str(w, "were") || chars_eq_str(w, "what")
        || chars_eq_str(w, "when") || chars_eq_str(w, "who") || chars_eq_str(w, "with")
        || chars_eq_str(w, "you") || chars_eq_str(w, "your")
}


// ---------------------------------------------------------------------------
// Word splitting
// ---------------------------------------------------------------------------

pub open spec fn is_apostrophe(c: char) -> bool {
    c == '\'' || c == '\u{2019}'
}

/// Position `i` of `s` is part of a word: an alphanumeric char, or an
/// apostrophe that continues a word and is followed by an alphanumeric char.
pub open spec fn word_char(s: Seq<char>, i: int) -> bool
    decreases i,
{
    if i < 0 || i >= s.len() {
        false
    } else {
        char_is_alphanumeric(s[i]) || (is_apostrophe(s[i]) && i > 0 && word_char(s, i - 1) && i
            + 1 < s.len() && char_is_alphanumeric(s[i + 1]))
    }
}

/// The end of the run of word chars that contains position `i`.
pub open spec fn run_end(s: Seq<char>, i: int) -> int
    decreases s.len() - i,
{
    if i < 0 || i >= s.len() {
        s.len() as int
    } else if !word_char(s, i) {
        i
    } else {
        run_end(s, i + 1)
    }
}

pub proof fn lemma_run_end_bounds(s: Seq<char>, i: int)
    requires
        0 <= i <= s.len(),
    ensures
        i <= run_end(s, i) <= s.len(),
        i < s.len() && word_char(s, i) ==> i < run_end(s, i),
    decreases s.len() - i,
{
    if i < s.len() && word_char(s, i) {
        lemma_run_end_bounds(s, i + 1);
    }
}

/// The words of `s` at or after position `i`, as `[start, end)` char ranges.
pub open spec fn spans_from(s: Seq<char>, i: int) -> Seq<(int, int)>
    decreases s.len() - i,
{
    if i < 0 || i >= s.len() {
        Seq::empty()
    } else if !word_char(s, i) {
        spans_from(s, i + 1)
    } else {
        let j = run_end(s, i);
        proof {
            lemma_run_end_bounds(s, i);
        }
        seq![(i, j)] + spans_from(s, j)
    }
}

/// The words of `s`: the maximal runs of word chars, in order.
pub open spec fn word_spans(s: Seq<char>) -> Seq<(int, int)> {
    spans_from(s, 0)
}

pub open spec fn spans_view(r: Seq<(usize, usize)>) -> Seq<(int, int)> {
    r.map_values(|p: (usize, usize)| (p.0 as int, p.1 as int))
}

/// Every word span lies inside the text and is non-empty, and spans are
/// in increasing order without overlap.
pub open spec fn spans_well_placed(s: Seq<char>, w: Seq<(int, int)>) -> bool {
    &&& forall|k: int| 0 <= k < w.len() ==> 0 <= #[trigger] w[k].0 < w[k].1 <= s.len()
    &&& forall|i: int, j: int| 0 <= i < j < w.len() ==> #[trigger] w[i].1 <= #[trigger] w[j].0
}

pub proof fn lemma_spans_from_well_placed(s: Seq<char>, i: int)
    requires
        0 <= i <= s.len(),
    ensures
        spans_well_placed(s, spans_from(s, i)),
        forall|k: int| 0 <= k < spans_from(s, i).len() ==> i <= #[trigger] spans_from(s, i)[k].0,
    decreases s.len() - i,
{
    if i < s.len() {
        if !word_char(s, i) {
            lemma_spans_from_well_placed(s, i + 1);
        } else {
            let j = run_end(s, i);
            lemma_run_end_bounds(s, i);
            lemma_spans_from_well_placed(s, j);
            let rest = spans_from(s, j);
            let all = seq![(i, j)] + rest;
            assert(spans_from(s, i) == all);
            assert forall|a: int, b: int| 0 <= a < b < all.len() implies #[trigger] all[a].1
                <= #[trigger] all[b].0 by {
                assert(all[b] == rest[b - 1]);
                if a > 0 {
                    assert(all[a] == rest[a - 1]);
                }
            }
            assert forall|k: int| 0 <= k < all.len() implies 0 <= #[trigger] all[k].0 < all[k].1
                <= s.len() && i <= all[k].0 by {
                if k > 0 {
                    assert(all[k] == rest[k - 1]);
                }
            }
        }
    }
}

/// Splits `v` into its words (see `word_spans`).
pub fn word_spans_of(v: &Vec<char>) -> (r: Vec<(usize, usize)>)
    ensures
        spans_view(r@) == word_spans(v@),
{
    let mut r: Vec<(usize, usize)> = Vec::new();
    let mut cur: Option<usize> = None;
    let mut i: usize = 0;
    let ghost s = v@;
    while i < v.len()
        invariant
            s == v@,
            i <= v.len(),
            cur.is_some() == (i > 0 && word_char(s, i - 1)),
            cur matches Some(st) ==> {
                &&& st < i
                &&& run_end(s, st as int) == run_end(s, i as int)
                &&& spans_view(r@) + seq![(st as int, run_end(s, st as int))] + spans_from(
                    s,
                    run_end(s, st as int),
                ) == word_spans(s)
            },
            cur is None ==> spans_view(r@) + spans_from(s, i as int) == word_spans(s),
        decreases v.len() - i,
    {
        let c = v[i];
        let wc = is_alphanumeric(c) || ((c == '\'' || c == '\u{2019}') && cur.is_some() && i + 1
            < v.len() && is_alphanumeric(v[i + 1]));
        assert(wc == word_char(s, i as int));
        let ghost old_r = r@;
        if wc {
            if cur.is_none() {
                cur = Some(i);
            }
        } else {
            if let Some(st) = cur {
                r.push((st, i));
                assert(spans_view(r@) =~= spans_view(old_r).push((st as int, i as int)));
                cur = None;
            }
        }
        i = i + 1;
        proof {
            if cur is None {
                assert(spans_view(r@) + spans_from(s, i as int) =~= word_spans(s));
            }
        }
    }
    if let Some(st) = cur {
        let ghost old_r = r@;
        r.push((st, v.len()));
        assert(spans_view(r@) =~= spans_view(old_r).push((st as int, v.len() as int)));
        assert(spans_from(s, v.len() as int) =~= Seq::<(int, int)>::empty());
        assert(spans_view(r@) =~= word_spans(s));
    } else {
        assert(spans_view(r@) =~= word_spans(s));
    }
    r
}

/// Some word of `prefix + " " + suffix` is not a filler word (compared in
/// ASCII lower case).
#[verifier::opaque]
pub open spec fn informative_context(prefix: Seq<char>, suffix: Seq<char>) -> bool {
    let ctx = prefix + seq![' '] + suffix;
    let w = word_spans(ctx);
    exists|k: int|
        0 <= k < w.len() && !is_filler_word(
            ascii_lower(ctx.subrange(#[trigger] w[k].0, w[k].1)),
        )
}

pub fn has_informative_context(prefix: &Vec<char>, suffix: &Vec<char>) -> (r: bool)
    ensures
        r == informative_context(prefix@, suffix@),
{
    reveal(informative_context);
    let mut ctx: Vec<char> = Vec::new();
    push_all(&mut ctx, prefix);
    ctx.push(' ');
    push_all(&mut ctx, suffix);
    assert(ctx@ =~= prefix@ + seq![' '] + suffix@);
    let spans = word_spans_of(&ctx);
    proof {
        lemma_spans_from_well_placed(ctx@, 0);
    }
    let ghost w = word_spans(ctx@);
    let mut k: usize = 0;
    while k < spans.len()
        invariant
            k <= spans@.len(),
            spans_view(spans@) == w,
            w == word_spans(ctx@),
            ctx@ == prefix@ + seq![' '] + suffix@,
            spans_well_placed(ctx@, w),
            forall|j: int|
                0 <= j < k ==> is_filler_word(
                    ascii_lower(ctx@.subrange(#[trigger] w[j].0, w[j].1)),
                ),
        decreases spans.len() - k,
    {
        let (a, b) = spans[k];
        assert(w[k as int] == (a as int, b as int));
        let word = slice_chars(&ctx, a, b);
        let lower = lower_chars(&word);
        if !filler_word(&lower) {
            proof {
                reveal(informative_context);
                assert(lower@ == ascii_lower(ctx@.subrange(w[k as int].0, w[k as int].1)));
            }
            return true;
        }
        k = k + 1;
    }
    proof {
        reveal(informative_context);
    }
    false
}

// ---------------------------------------------------------------------------
// Trimming
// ---------------------------------------------------------------------------

/// Every char is white space (what `str::trim().is_empty()` tests).
pub open spec fn is_blank(s: Seq<char>) -> bool {
    forall|i: int| 0 <= i < s.len() ==> char_is_white(#[trigger] s[i])
}

pub open spec fn char_is_white(c: char) -> bool {
    char_is_whitespace(c)
}

/// `str::trim_start`.
pub open spec fn trim_start(s: Seq<char>) -> Seq<char>
    decreases s.len(),
{
    if s.len() > 0 && char_is_whitespace(s[0]) {
        trim_start(s.drop_first())
    } else {
        s
    }
}

/// `str::trim_end`.
pub open spec fn trim_end(s: Seq<char>) -> Seq<char>
    decreases s.len(),
{
    if s.len() > 0 && char_is_whitespace(s.last()) {
        trim_end(s.drop_last())
    } else {
        s
    }
}

pub fn blank(v: &Vec<char>) -> (r: bool)
    ensures
        r == is_blank(v@),
{
    let mut i: usize = 0;
    while i < v.len()
        invariant
            i <= v.len(),
            forall|k: int| 0 <= k < i ==> char_is_white(#[trigger] v@[k]),
        decreases v.len() - i,
    {
        if !is_whitespace(v[i]) {
            return false;
        }
        i = i + 1;
    }
    true
}

/// Whether a string is empty once trimmed.
pub fn str_blank(s: &str) -> (r: bool)
    ensures
        r == is_blank(s@),
{
    let v = chars_of(s);
    blank(&v)
}

proof fn lemma_trim_start_skip(s: Seq<char>, k: int)
    requires
        0 <= k <= s.len(),
        forall|i: int| 0 <= i < k ==> char_is_whitespace(#[trigger] s[i]),
    ensures
        trim_start(s) == trim_start(s.skip(k)),
    decreases k,
{
    if k > 0 {
        assert(s.drop_first().skip(k - 1) =~= s.skip(k));
        assert forall|i: int| 0 <= i < k - 1 implies char_is_whitespace(
            #[trigger] s.drop_first()[i],
        ) by {
            assert(s.drop_first()[i] == s[i + 1]);
        }
        lemma_trim_start_skip(s.drop_first(), k - 1);
    } else {
        assert(s.skip(0) =~= s);
    }
}

proof fn lemma_trim_end_take(s: Seq<char>, k: int)
    requires
        0 <= k <= s.len(),
        forall|i: int| k <= i < s.len() ==> char_is_whitespace(#[trigger] s[i]),
    ensures
        trim_end(s) == trim_end(s.take(k)),
    decreases s.len() - k,
{
    if k < s.len() {
        assert(s.drop_last().take(k) =~= s.take(k));
        lemma_trim_end_take(s.drop_last(), k);
    } else {
        assert(s.take(k) =~= s);
    }
}

pub fn trim_start_chars(v: &Vec<char>) -> (r: Vec<char>)
    ensures
        r@ == trim_start(v@),
{
    let mut i: usize = 0;
    while i < v.len() && is_whitespace(v[i])
        invariant
            i <= v.len(),
            forall|k: int| 0 <= k < i ==> char_is_whitespace(#[trigger] v@[k]),
        decreases v.len() - i,
    {
        i = i + 1;
    }
    proof {
        lemma_trim_start_skip(v@, i as int);
        let t = v@.skip(i as int);
        assert(t.len() > 0 ==> t[0] == v@[i as int]);
    }
    let r = slice_chars(v, i, v.len());
    assert(r@ =~= v@.skip(i as int));
    r
}

pub fn trim_end_chars(v: &Vec<char>) -> (r: Vec<char>)
    ensures
        r@ == trim_end(v@),
{
    let mut j: usize = v.len();
    while j > 0 && is_whitespace(v[j - 1])
        invariant
            j <= v.len(),
            forall|k: int| j <= k < v.len() ==> char_is_whitespace(#[trigger] v@[k]),
        decreases j,
    {
        j = j - 1;
    }
    proof {
        lemma_trim_end_take(v@, j as int);
    }
    let r = slice_chars(v, 0, j);
    assert(r@ =~= v@.take(j as int));
    r
}

// ---------------------------------------------------------------------------
// Decimal rendering
// ---------------------------------------------------------------------------

pub open spec fn digit_char(d: nat) -> char {
    if d == 0 {
        '0'
    } else if d == 1 {
        '1'
    } else if d == 2 {
        '2'
    } else if d == 3 {
        '3'
    } else if d == 4 {
        '4'
    } else if d == 5 {
        '5'
    } else if d == 6 {
        '6'
    } else if d == 7 {
        '7'
    } else if d == 8 {
        '8'
    } else {
        '9'
    }
}

/// Decimal digits of `n`, as `format!("{}", n)` writes them.
pub open spec fn decimal(n: nat) -> Seq<char>
    decreases n,
{
    if n < 10 {
        seq![digit_char(n)]
    } else {
        decimal(n / 10).push(digit_char(n % 10))
    }
}

/// A signed integer in decimal, with a leading `-` when negative.
pub open spec fn signed_decimal(n: int) -> Seq<char> {
    if n < 0 {
        seq!['-'] + decimal((-n) as nat)
    } else {
        decimal(n as nat)
    }
}

fn digit(d: u128) -> (c: char)
    requires
        d < 10,
    ensures
        c == digit_char(d as nat),
{
    if d == 0 {
        '0'
    } else if d == 1 {
        '1'
    } else if d == 2 {
        '2'
    } else if d == 3 {
        '3'
    } else if d == 4 {
        '4'
    } else if d == 5 {
        '5'
    } else if d == 6 {
        '6'
    } else if d == 7 {
        '7'
    } else if d == 8 {
        '8'
    } else {
        '9'
    }
}

/// Appends the decimal digits of `n`.
pub fn push_decimal(out: &mut Vec<char>, n: u128)
    ensures
        final(out)@ == old(out)@ + decimal(n as nat),
    decreases n,
{
    if n < 10 {
        out.push(digit(n));
        assert(old(out)@.push(digit_char(n as nat)) =~= old(out)@ + seq![digit_char(n as nat)]);
    } else {
        push_decimal(out, n / 10);
        out.push(digit(n % 10));
        assert(old(out)@ + decimal((n / 10) as nat) + seq![digit_char((n % 10) as nat)]
            =~= old(out)@ + decimal((n / 10) as nat).push(digit_char((n % 10) as nat)));
    }
}

/// Appends a signed integer in decimal.
pub fn push_signed_decimal(out: &mut Vec<char>, n: i64)
    requires
        n > i64::MIN,
    ensures
        final(out)@ == old(out)@ + signed_decimal(n as int),
{
    if n < 0 {
        out.push('-');
        let m: i64 = -n;
        push_decimal(out, m as u128);
        assert(old(out)@.push('-') + decimal((-n) as nat) =~= old(out)@ + (seq!['-'] + decimal(
            (-n) as nat,
        )));
    } else {
        push_decimal(out, n as u128);
    }
}

} // verus!

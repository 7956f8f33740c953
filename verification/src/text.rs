//! Text primitives shared by the wire protocol, the configuration reader and
//! the ring: whitespace, word splitting, comparison and decimal rendering.
//! Every specification here is stated over `Seq<char>`, the view of a string.

use vstd::prelude::*;
use vstd::string::*;

verus! {

broadcast use vstd::utf8::group_utf8_lib;

// Specifications

/// Whether `c` belongs to the Unicode `White_Space` set.
pub open spec fn is_space(c: char) -> bool {
    let u = c as u32;
    ||| 0x09 <= u <= 0x0D
    ||| u == 0x20
    ||| u == 0x85
    ||| u == 0xA0
    ||| u == 0x1680
    ||| 0x2000 <= u <= 0x200A
    ||| u == 0x2028
    ||| u == 0x2029
    ||| u == 0x202F
    ||| u == 0x205F
    ||| u == 0x3000
}

/// A word is a non-empty run of characters none of which is white space.
pub open spec fn is_word(w: Seq<char>) -> bool {
    &&& w.len() > 0
    &&& forall|i: int| 0 <= i < w.len() ==> !is_space(#[trigger] w[i])
}

/// Scanning `s` from the left: the words already closed by white space, and
/// the run of non-space characters that is still open at the end of `s`.
pub open spec fn scan(s: Seq<char>) -> (Seq<Seq<char>>, Seq<char>)
    decreases s.len(),
{
    if s.len() == 0 {
        (Seq::empty(), Seq::empty())
    } else {
        let (done, open) = scan(s.drop_last());
        if !is_space(s.last()) {
            (done, open.push(s.last()))
        } else if open.len() > 0 {
            (done.push(open), Seq::empty())
        } else {
            (done, open)
        }
    }
}

/// The maximal white-space-free runs of `s`, in order.
pub open spec fn words(s: Seq<char>) -> Seq<Seq<char>> {
    let (done, open) = scan(s);
    if open.len() > 0 {
        done.push(open)
    } else {
        done
    }
}

/// The pieces of `s` between occurrences of `sep`, empty pieces included; there
/// is always at least one piece.
pub open spec fn pieces(s: Seq<char>, sep: char) -> Seq<Seq<char>>
    decreases s.len(),
{
    if s.len() == 0 {
        seq![Seq::empty()]
    } else {
        let before = pieces(s.drop_last(), sep);
        if s.last() == sep {
            before.push(Seq::empty())
        } else {
            before.drop_last().push(before.last().push(s.last()))
        }
    }
}

/// `s` without its leading white space.
pub open spec fn trim_start(s: Seq<char>) -> Seq<char>
    decreases s.len(),
{
    if s.len() > 0 && is_space(s[0]) {
        trim_start(s.drop_first())
    } else {
        s
    }
}

/// `s` without its trailing white space.
pub open spec fn trim_end(s: Seq<char>) -> Seq<char>
    decreases s.len(),
{
    if s.len() > 0 && is_space(s.last()) {
        trim_end(s.drop_last())
    } else {
        s
    }
}

/// `s` without its leading and trailing white space.
pub open spec fn trimmed(s: Seq<char>) -> Seq<char> {
    trim_end(trim_start(s))
}

/// Lexicographic order on byte strings; a proper prefix comes first.
pub open spec fn bytes_le(a: Seq<u8>, b: Seq<u8>) -> bool
    decreases a.len(),
{
    if a.len() == 0 {
        true
    } else if b.len() == 0 {
        false
    } else if a[0] != b[0] {
        a[0] < b[0]
    } else {
        bytes_le(a.drop_first(), b.drop_first())
    }
}

/// The order of two texts compared as UTF-8 byte strings.
pub open spec fn text_le(a: Seq<char>, b: Seq<char>) -> bool {
    bytes_le(vstd::utf8::encode_utf8(a), vstd::utf8::encode_utf8(b))
}

/// The character of the decimal digit `d`.
pub open spec fn digit(d: nat) -> char {
    ((48 + d) as u8) as char
}

/// `n` in decimal, without sign or leading zeros.
pub open spec fn decimal(n: nat) -> Seq<char>
    decreases n,
{
    if n < 10 {
        seq![digit(n)]
    } else {
        decimal(n / 10).push(digit(n % 10))
    }
}

/// The texts of `parts` with `sep` between each two neighbours.
pub open spec fn joined(parts: Seq<Seq<char>>, sep: Seq<char>) -> Seq<char>
    decreases parts.len(),
{
    if parts.len() == 0 {
        Seq::empty()
    } else if parts.len() == 1 {
        parts[0]
    } else {
        joined(parts.drop_last(), sep) + sep + parts.last()
    }
}

/// `s` without its white space.
pub open spec fn without_spaces(s: Seq<char>) -> Seq<char>
    decreases s.len(),
{
    if s.len() == 0 {
        Seq::empty()
    } else if is_space(s.last()) {
        without_spaces(s.drop_last())
    } else {
        without_spaces(s.drop_last()).push(s.last())
    }
}

// The standard library

/// Assumed of `String::push` of the standard library, and not proved here:
/// after the call the string holds the characters it held before, followed
/// by `c`.
pub assume_specification[ String::push ](s: &mut String, c: char)
    ensures
        final(s)@ == old(s)@.push(c),
;

// Functions

/// Whether `c` is white space.
pub fn is_whitespace(c: char) -> (b: bool)
    ensures
        b == is_space(c),
{
    let u: u32 = c as u32;
    (0x09 <= u && u <= 0x0D) || u == 0x20 || u == 0x85 || u == 0xA0 || u == 0x1680 || (0x2000 <= u
        && u <= 0x200A) || u == 0x2028 || u == 0x2029 || u == 0x202F || u == 0x205F || u == 0x3000
}

/// The characters of `s`, for indexed access.
pub fn chars_of(s: &str) -> (v: Vec<char>)
    ensures
        v@ == s@,
{
    let mut v: Vec<char> = Vec::new();
    for c in it: s.chars()
        invariant
            v@ == it.seq().take(it.index() as int),
            it.seq() == s@,
    {
        v.push(c);
    }
    v
}

/// The string made of `v[from..to]`.
pub fn string_of(v: &Vec<char>, from: usize, to: usize) -> (s: String)
    requires
        from <= to <= v.len(),
    ensures
        s@ == v@.subrange(from as int, to as int),
{
    let mut s = String::new();
    let mut i: usize = from;
    while i < to
        invariant
            from <= i <= to <= v.len(),
            s@ == v@.subrange(from as int, i as int),
        decreases to - i,
    {
        s.push(v[i]);
        i += 1;
    }
    s
}

/// Whether two strings hold the same characters.
pub fn same_text(a: &str, b: &str) -> (r: bool)
    ensures
        r == (a@ == b@),
{
    let x = a.as_bytes();
    let y = b.as_bytes();
    proof {
        assert(vstd::utf8::decode_utf8(a.spec_bytes()) == a@);
        assert(vstd::utf8::decode_utf8(b.spec_bytes()) == b@);
    }
    if x.len() != y.len() {
        return false;
    }
    let mut i: usize = 0;
    while i < x.len()
        invariant
            i <= x.len(),
            x.len() == y.len(),
            x@ == a.spec_bytes(),
            y@ == b.spec_bytes(),
            forall|j: int| 0 <= j < i ==> x@[j] == y@[j],
        decreases x.len() - i,
    {
        if x[i] != y[i] {
            return false;
        }
        i += 1;
    }
    assert(x@ =~= y@);
    true
}

/// Splits `s` at white space and drops the empty pieces.
pub fn split_whitespace(s: &str) -> (out: Vec<String>)
    ensures
        out.deep_view() == words(s@),
{
    let mut done: Vec<String> = Vec::new();
    let mut open = String::new();
    for c in it: s.chars()
        invariant
            it.seq() == s@,
            (done.deep_view(), open@) == scan(it.seq().take(it.index() as int)),
    {
        let ghost before = it.seq().take(it.index() as int);
        let ghost after = it.seq().take(it.index() + 1);
        assert(after.drop_last() == before);
        assert(after.last() == c);
        if !is_whitespace(c) {
            open.push(c);
        } else if open.as_str().unicode_len() > 0 {
            let ghost old_done = done.deep_view();
            done.push(open);
            assert(done.deep_view() == old_done.push(open@));
            open = String::new();
        }
    }
    assert(s@.take(s@.len() as int) == s@);
    if open.as_str().unicode_len() > 0 {
        let ghost old_done = done.deep_view();
        done.push(open);
        assert(done.deep_view() == old_done.push(open@));
    }
    done
}

/// Splits `s` at every occurrence of `sep`.
pub fn split_on(s: &str, sep: char) -> (out: Vec<String>)
    ensures
        out.deep_view() == pieces(s@, sep),
{
    let mut done: Vec<String> = Vec::new();
    let mut open = String::new();
    for c in it: s.chars()
        invariant
            it.seq() == s@,
            done.deep_view().push(open@) == pieces(it.seq().take(it.index() as int), sep),
    {
        let ghost before = it.seq().take(it.index() as int);
        let ghost after = it.seq().take(it.index() + 1);
        let ghost parts = done.deep_view().push(open@);
        assert(after.drop_last() == before);
        assert(after.last() == c);
        assert(parts.drop_last() == done.deep_view());
        if c == sep {
            let ghost old_done = done.deep_view();
            done.push(open);
            assert(done.deep_view() == old_done.push(open@));
            open = String::new();
        } else {
            open.push(c);
        }
    }
    assert(s@.take(s@.len() as int) == s@);
    let ghost old_done = done.deep_view();
    done.push(open);
    assert(done.deep_view() == old_done.push(open@));
    done
}

/// `s` without its leading and trailing white space.
pub fn trim(s: &str) -> (out: String)
    ensures
        out@ == trimmed(s@),
{
    let v = chars_of(s);
    let mut from: usize = 0;
    assert(v@.subrange(0, v.len() as int) == v@);
    while from < v.len() && is_whitespace(v[from])
        invariant
            from <= v.len(),
            trim_start(v@) == trim_start(v@.subrange(from as int, v.len() as int)),
        decreases v.len() - from,
    {
        assert(v@.subrange(from as int, v.len() as int).drop_first() == v@.subrange(
            from + 1,
            v.len() as int,
        ));
        from += 1;
    }
    let mut to: usize = v.len();
    while to > from && is_whitespace(v[to - 1])
        invariant
            from <= to <= v.len(),
            trim_end(v@.subrange(from as int, v.len() as int)) == trim_end(
                v@.subrange(from as int, to as int),
            ),
        decreases to,
    {
        assert(v@.subrange(from as int, to as int).drop_last() == v@.subrange(
            from as int,
            to - 1,
        ));
        to -= 1;
    }
    string_of(&v, from, to)
}

/// Whether `s` begins with `prefix`.
pub fn starts_with(s: &str, prefix: &str) -> (r: bool)
    ensures
        r == prefix@.is_prefix_of(s@),
{
    let v = chars_of(s);
    let p = chars_of(prefix);
    if p.len() > v.len() {
        return false;
    }
    let mut i: usize = 0;
    while i < p.len()
        invariant
            i <= p.len() <= v.len(),
            v@ == s@,
            p@ == prefix@,
            forall|j: int| 0 <= j < i ==> v@[j] == p@[j],
        decreases p.len() - i,
    {
        if v[i] != p[i] {
            return false;
        }
        i += 1;
    }
    assert(p@ =~= v@.subrange(0, p.len() as int));
    true
}

/// Whether `s` ends with `suffix`.
pub fn ends_with(s: &str, suffix: &str) -> (r: bool)
    ensures
        r == suffix@.is_suffix_of(s@),
{
    let v = chars_of(s);
    let p = chars_of(suffix);
    if p.len() > v.len() {
        return false;
    }
    let shift: usize = v.len() - p.len();
    let mut i: usize = 0;
    while i < p.len()
        invariant
            i <= p.len() <= v.len(),
            shift == v.len() - p.len(),
            v@ == s@,
            p@ == suffix@,
            forall|j: int| 0 <= j < i ==> v@[shift + j] == p@[j],
        decreases p.len() - i,
    {
        if v[shift + i] != p[i] {
            return false;
        }
        i += 1;
    }
    assert(p@ =~= v@.subrange(shift as int, v.len() as int));
    true
}

/// `s` without its first `n` characters.
pub fn skip_chars(s: &str, n: usize) -> (out: String)
    requires
        n <= s@.len(),
    ensures
        out@ == s@.skip(n as int),
{
    let v = chars_of(s);
    string_of(&v, n, v.len())
}

/// Whether `a` comes before `b`, or equals it, as byte strings.
pub fn le(a: &str, b: &str) -> (r: bool)
    ensures
        r == text_le(a@, b@),
{
    let x = a.as_bytes();
    let y = b.as_bytes();
    let mut i: usize = 0;
    assert(x@.skip(0) == x@ && y@.skip(0) == y@);
    while i < x.len() && i < y.len()
        invariant
            i <= x.len(),
            i <= y.len(),
            x@ == a.spec_bytes(),
            y@ == b.spec_bytes(),
            bytes_le(x@, y@) == bytes_le(x@.skip(i as int), y@.skip(i as int)),
        decreases x.len() - i,
    {
        assert(x@.skip(i as int)[0] == x@[i as int]);
        assert(y@.skip(i as int)[0] == y@[i as int]);
        if x[i] != y[i] {
            return x[i] < y[i];
        }
        assert(x@.skip(i as int).drop_first() == x@.skip(i + 1));
        assert(y@.skip(i as int).drop_first() == y@.skip(i + 1));
        i += 1;
    }
    i == x.len()
}

/// The character of the decimal digit `d`.
fn digit_char(d: u32) -> (c: char)
    requires
        d < 10,
    ensures
        c == digit(d as nat),
{
    (48u8 + (d as u8)) as char
}

/// Appends `n` in decimal to `s`.
pub fn push_decimal(s: &mut String, n: u32)
    ensures
        final(s)@ == old(s)@ + decimal(n as nat),
    decreases n,
{
    if n >= 10 {
        push_decimal(s, n / 10);
    }
    s.push(digit_char(n % 10));
}

/// Concatenates `parts`, putting `sep` between each two neighbours.
pub fn join(parts: &Vec<String>, sep: &str) -> (out: String)
    ensures
        out@ == joined(parts.deep_view(), sep@),
{
    let mut out = String::new();
    let mut i: usize = 0;
    while i < parts.len()
        invariant
            i <= parts.len(),
            out@ == joined(parts.deep_view().take(i as int), sep@),
        decreases parts.len() - i,
    {
        let ghost next = parts.deep_view().take(i + 1);
        assert(next.drop_last() == parts.deep_view().take(i as int));
        assert(next.last() == parts@[i as int]@);
        if i > 0 {
            out.append(sep);
        } else {
            assert(out@ + parts@[i as int]@ == parts@[i as int]@);
        }
        out.append(parts[i].as_str());
        i += 1;
    }
    assert(parts.deep_view().take(parts.len() as int) == parts.deep_view());
    out
}

// Laws

/// A text without white space scans as one open run.
pub proof fn lemma_scan_word(w: Seq<char>)
    requires
        forall|i: int| 0 <= i < w.len() ==> !is_space(#[trigger] w[i]),
    ensures
        scan(w) == (Seq::<Seq<char>>::empty(), w),
    decreases w.len(),
{
    if w.len() > 0 {
        lemma_scan_word(w.drop_last());
        assert(w.drop_last().push(w.last()) == w);
    }
}

/// A word splits into itself.
pub proof fn lemma_words_of_word(w: Seq<char>)
    requires
        is_word(w),
    ensures
        words(w) == seq![w],
{
    lemma_scan_word(w);
    assert(Seq::<Seq<char>>::empty().push(w) == seq![w]);
}

/// White space at the end of a text adds no word.
pub proof fn lemma_words_trailing_space(s: Seq<char>, sp: char)
    requires
        is_space(sp),
    ensures
        words(s.push(sp)) == words(s),
{
    assert(s.push(sp).drop_last() == s);
}

/// Scanning past a white space character starts afresh on what follows.
pub proof fn lemma_scan_after_space(a: Seq<char>, sp: char, b: Seq<char>)
    requires
        is_space(sp),
    ensures
        scan(a.push(sp) + b) == (words(a) + scan(b).0, scan(b).1),
    decreases b.len(),
{
    if b.len() == 0 {
        assert(a.push(sp) + b == a.push(sp));
        assert(a.push(sp).drop_last() == a);
        assert(words(a) + Seq::<Seq<char>>::empty() == words(a));
    } else {
        let whole = a.push(sp) + b;
        assert(whole.drop_last() == a.push(sp) + b.drop_last());
        assert(whole.last() == b.last());
        lemma_scan_after_space(a, sp, b.drop_last());
        let (done, open) = scan(b.drop_last());
        assert((words(a) + done).push(open) == words(a) + done.push(open));
    }
}

/// The words of two texts joined by one white space character are the words
/// of the first followed by the words of the second.
pub proof fn lemma_words_around_space(a: Seq<char>, sp: char, b: Seq<char>)
    requires
        is_space(sp),
    ensures
        words(a.push(sp) + b) == words(a) + words(b),
{
    lemma_scan_after_space(a, sp, b);
    let (done, open) = scan(b);
    assert((words(a) + done).push(open) == words(a) + done.push(open));
}

/// Words joined by single blanks split into the same words again.
pub proof fn lemma_words_of_joined(parts: Seq<Seq<char>>)
    requires
        forall|i: int| 0 <= i < parts.len() ==> is_word(#[trigger] parts[i]),
    ensures
        words(joined(parts, seq![' '])) == parts,
    decreases parts.len(),
{
    if parts.len() == 0 {
    } else if parts.len() == 1 {
        lemma_words_of_word(parts[0]);
        assert(seq![parts[0]] == parts);
    } else {
        let init = parts.drop_last();
        lemma_words_of_joined(init);
        lemma_words_of_word(parts.last());
        let head = joined(init, seq![' ']);
        assert(head + seq![' '] + parts.last() == head.push(' ') + parts.last());
        lemma_words_around_space(head, ' ', parts.last());
        assert(init + seq![parts.last()] == parts);
    }
}

/// What a scan has closed are words, and the open run holds no white space.
pub proof fn lemma_scan_yields_words(s: Seq<char>)
    ensures
        forall|i: int| 0 <= i < scan(s).0.len() ==> is_word(#[trigger] scan(s).0[i]),
        forall|j: int| 0 <= j < scan(s).1.len() ==> !is_space(#[trigger] scan(s).1[j]),
    decreases s.len(),
{
    if s.len() > 0 {
        lemma_scan_yields_words(s.drop_last());
        let (done, open) = scan(s.drop_last());
        let (done2, open2) = scan(s);
        assert forall|i: int| 0 <= i < done2.len() implies is_word(#[trigger] done2[i]) by {
            if i < done.len() {
                assert(done2[i] == done[i]);
            } else {
                assert(done2[i] == open);
            }
        }
        assert forall|j: int| 0 <= j < open2.len() implies !is_space(#[trigger] open2[j]) by {
            if j < open.len() {
                assert(open2[j] == open[j]);
            }
        }
    }
}

/// Every piece that splitting at white space yields is a word.
pub proof fn lemma_words_are_words(s: Seq<char>)
    ensures
        forall|i: int| 0 <= i < words(s).len() ==> is_word(#[trigger] words(s)[i]),
{
    lemma_scan_yields_words(s);
}

/// There is always a first piece; it is the text before the first separator,
/// and the pieces with the separators between them are as long as the text.
pub proof fn lemma_pieces(s: Seq<char>, sep: char)
    ensures
        pieces(s, sep).len() >= 1,
        pieces(s, sep)[0].len() + pieces(s, sep).len() - 1 <= s.len(),
        pieces(s, sep)[0] == s.take(pieces(s, sep)[0].len() as int),
        pieces(s, sep).len() >= 2 ==> s[pieces(s, sep)[0].len() as int] == sep,
        forall|i: int| 0 <= i < pieces(s, sep)[0].len() ==> s[i] != sep,
    decreases s.len(),
{
    if s.len() > 0 {
        let init = s.drop_last();
        lemma_pieces(init, sep);
        let before = pieces(init, sep);
        let first = before[0];
        assert(first == init.take(first.len() as int));
        if s.last() == sep {
            assert(pieces(s, sep)[0] == first);
            assert(first == s.take(first.len() as int));
            if before.len() == 1 {
                assert(first.len() == init.len()) by {
                    lemma_pieces_single(init, sep);
                }
            }
        } else if before.len() == 1 {
            lemma_pieces_single(init, sep);
            assert(pieces(s, sep)[0] == first.push(s.last()));
            assert(first.push(s.last()) == s.take(s.len() as int));
        } else {
            assert(pieces(s, sep)[0] == first);
            assert(first == s.take(first.len() as int));
        }
        assert forall|i: int| 0 <= i < pieces(s, sep)[0].len() implies s[i] != sep by {
            if i < init.len() {
                assert(s[i] == init[i]);
            }
        }
    } else {
        assert(pieces(s, sep)[0] == s.take(0));
    }
}

/// A text that is one piece holds no separator, and is that piece.
pub proof fn lemma_pieces_single(s: Seq<char>, sep: char)
    requires
        pieces(s, sep).len() == 1,
    ensures
        pieces(s, sep)[0] == s,
    decreases s.len(),
{
    if s.len() > 0 {
        let init = s.drop_last();
        lemma_pieces(init, sep);
        if s.last() != sep {
            lemma_pieces_single(init, sep);
            assert(init.push(s.last()) == s);
        }
    } else {
        assert(pieces(s, sep)[0] == s);
    }
}

/// The order on byte strings is reflexive.
pub proof fn lemma_bytes_le_reflexive(a: Seq<u8>)
    ensures
        bytes_le(a, a),
    decreases a.len(),
{
    if a.len() > 0 {
        lemma_bytes_le_reflexive(a.drop_first());
    }
}

/// Of two byte strings one comes before the other, or they are equal.
pub proof fn lemma_bytes_le_total(a: Seq<u8>, b: Seq<u8>)
    ensures
        bytes_le(a, b) || bytes_le(b, a),
    decreases a.len(),
{
    if a.len() > 0 && b.len() > 0 && a[0] == b[0] {
        lemma_bytes_le_total(a.drop_first(), b.drop_first());
    }
}

/// Two byte strings that come before each other are equal.
pub proof fn lemma_bytes_le_antisymmetric(a: Seq<u8>, b: Seq<u8>)
    requires
        bytes_le(a, b),
        bytes_le(b, a),
    ensures
        a == b,
    decreases a.len(),
{
    if a.len() > 0 {
        lemma_bytes_le_antisymmetric(a.drop_first(), b.drop_first());
        assert(a == seq![a[0]] + a.drop_first());
        assert(b == seq![b[0]] + b.drop_first());
    } else {
        assert(a == b);
    }
}

/// The order on byte strings is transitive.
pub proof fn lemma_bytes_le_transitive(a: Seq<u8>, b: Seq<u8>, c: Seq<u8>)
    requires
        bytes_le(a, b),
        bytes_le(b, c),
    ensures
        bytes_le(a, c),
    decreases a.len(),
{
    if a.len() > 0 && a[0] == b[0] && b[0] == c[0] {
        lemma_bytes_le_transitive(a.drop_first(), b.drop_first(), c.drop_first());
    }
}

/// The order on texts is a total order.
pub proof fn lemma_text_le_is_total_order(a: Seq<char>, b: Seq<char>, c: Seq<char>)
    ensures
        text_le(a, a),
        text_le(a, b) || text_le(b, a),
        text_le(a, b) && text_le(b, a) ==> a == b,
        text_le(a, b) && text_le(b, c) ==> text_le(a, c),
{
    let x = vstd::utf8::encode_utf8(a);
    let y = vstd::utf8::encode_utf8(b);
    let z = vstd::utf8::encode_utf8(c);
    lemma_bytes_le_reflexive(x);
    lemma_bytes_le_total(x, y);
    if text_le(a, b) && text_le(b, a) {
        lemma_bytes_le_antisymmetric(x, y);
        assert(vstd::utf8::decode_utf8(x) == a);
        assert(vstd::utf8::decode_utf8(y) == b);
    }
    if text_le(a, b) && text_le(b, c) {
        lemma_bytes_le_transitive(x, y, z);
    }
}

/// Splitting at white space loses nothing else: the words, set one after
/// the other, are the text without its white space.
pub proof fn lemma_words_cover(s: Seq<char>)
    ensures
        joined(words(s), Seq::empty()) == without_spaces(s),
        joined(scan(s).0, Seq::empty()) + scan(s).1 == without_spaces(s),
    decreases s.len(),
{
    let nothing = Seq::<char>::empty();
    if s.len() > 0 {
        lemma_words_cover(s.drop_last());
        let (done, open) = scan(s.drop_last());
        lemma_joined_push(done, open);
        assert(joined(done, nothing) + open.push(s.last()) == (joined(done, nothing) + open).push(
            s.last(),
        ));
        assert(joined(done, nothing) + nothing == joined(done, nothing));
    }
    let (done, open) = scan(s);
    lemma_joined_push(done, open);
    assert(joined(done, nothing) + nothing == joined(done, nothing));
}

/// Joining without a separator is concatenation.
pub proof fn lemma_joined_push(parts: Seq<Seq<char>>, last: Seq<char>)
    ensures
        joined(parts.push(last), Seq::empty()) == joined(parts, Seq::empty()) + last,
{
    let nothing = Seq::<char>::empty();
    assert(parts.push(last).drop_last() == parts);
    if parts.len() == 0 {
        assert(nothing + last == last);
    } else {
        assert(joined(parts, nothing) + nothing + last == joined(parts, nothing) + last);
    }
}

} // verus!

//! Building blocks for reasoning about text: searching, joining, padding and
//! writing numbers. Text is modelled by its characters.

use vstd::prelude::*;
use vstd::string::*;
use vstd::utf8::*;

verus! {

/// `String::push` of the standard library: appends one character.
pub assume_specification [String::push] (s: &mut String, c: char)
    ensures
        final(s)@ == old(s)@.push(c),
;

/// `needle` stands in `hay` at index `i`.
pub open spec fn occurs_at<T>(hay: Seq<T>, needle: Seq<T>, i: int) -> bool {
    0 <= i && i + needle.len() <= hay.len() && hay.subrange(i, i + needle.len()) == needle
}

/// `needle` stands somewhere in `hay`.
pub open spec fn occurs<T>(hay: Seq<T>, needle: Seq<T>) -> bool {
    exists|i: int| #[trigger] occurs_at(hay, needle, i)
}

/// `i` is the lowest index at which `needle` stands in `hay`.
pub open spec fn occurs_first_at<T>(hay: Seq<T>, needle: Seq<T>, i: int) -> bool {
    &&& occurs_at(hay, needle, i)
    &&& forall|j: int| 0 <= j < i ==> !#[trigger] occurs_at(hay, needle, j)
}

/// The lowest index at which `needle` stands in `hay`, if it stands there at all.
pub open spec fn first_at<T>(hay: Seq<T>, needle: Seq<T>) -> Option<int> {
    if occurs(hay, needle) {
        Some(choose|i: int| occurs_first_at(hay, needle, i))
    } else {
        None
    }
}

/// There is one lowest index only.
pub proof fn lemma_first_at<T>(hay: Seq<T>, needle: Seq<T>, i: int)
    requires
        occurs_first_at(hay, needle, i),
    ensures
        first_at(hay, needle) == Some(i),
{
    assert(occurs_at(hay, needle, i));
    let k = choose|k: int| occurs_first_at(hay, needle, k);
    assert(occurs_first_at(hay, needle, k));
    assert(occurs_at(hay, needle, k));
    if k < i {
        assert(!occurs_at(hay, needle, k));
    }
    if i < k {
        assert(!occurs_at(hay, needle, i));
    }
}

/// The index of `first_at`, where there is one, is the lowest.
pub proof fn lemma_first_at_is_first<T>(hay: Seq<T>, needle: Seq<T>)
    ensures
        first_at(hay, needle) matches Some(i) ==> occurs_first_at(hay, needle, i),
{
    if occurs(hay, needle) {
        let i = choose|i: int| #[trigger] occurs_at(hay, needle, i);
        lemma_lowest(hay, needle, i);
    }
}

proof fn lemma_lowest<T>(hay: Seq<T>, needle: Seq<T>, i: int)
    requires
        occurs_at(hay, needle, i),
    ensures
        exists|k: int| occurs_first_at(hay, needle, k),
    decreases i,
{
    if exists|j: int| 0 <= j < i && #[trigger] occurs_at(hay, needle, j) {
        let j = choose|j: int| 0 <= j < i && #[trigger] occurs_at(hay, needle, j);
        lemma_lowest(hay, needle, j);
    } else {
        assert(occurs_first_at(hay, needle, i));
    }
}

/// `text` begins with `prefix`.
pub open spec fn begins_with<T>(text: Seq<T>, prefix: Seq<T>) -> bool {
    occurs_at(text, prefix, 0)
}

/// The parts in order, with `sep` between neighbours.
pub open spec fn join<T>(parts: Seq<Seq<T>>, sep: Seq<T>) -> Seq<T>
    decreases parts.len(),
{
    if parts.len() == 0 {
        Seq::empty()
    } else if parts.len() == 1 {
        parts[0]
    } else {
        join(parts.drop_last(), sep) + sep + parts.last()
    }
}

/// The number of elements of `s` that equal `x`.
pub open spec fn count<T>(s: Seq<T>, x: T) -> nat
    decreases s.len(),
{
    if s.len() == 0 {
        0
    } else {
        count(s.drop_last(), x) + if s.last() == x {
            1nat
        } else {
            0nat
        }
    }
}

/// No more elements of a sequence equal another than there are.
pub proof fn lemma_count_bound<T>(s: Seq<T>, x: T)
    ensures
        count(s, x) <= s.len(),
    decreases s.len(),
{
    if s.len() > 0 {
        lemma_count_bound(s.drop_last(), x);
    }
}

/// A prefix holds no more of them than the whole.
pub proof fn lemma_count_prefix<T>(s: Seq<T>, x: T, n: int)
    requires
        0 <= n <= s.len(),
    ensures
        count(s.take(n), x) <= count(s, x),
    decreases s.len(),
{
    if n < s.len() {
        lemma_count_prefix(s.drop_last(), x, n);
        assert(s.drop_last().take(n) =~= s.take(n));
    } else {
        assert(s.take(n) =~= s);
    }
}

/// The character of a decimal digit.
pub open spec fn digit(d: nat) -> char {
    (48 + d) as u8 as char
}

/// `n` in decimal, without leading zeros.
pub open spec fn decimal_text(n: nat) -> Seq<char>
    decreases n,
{
    if n < 10 {
        seq![digit(n)]
    } else {
        decimal_text(n / 10).push(digit(n % 10))
    }
}

/// `n` in decimal, with a leading minus sign where it is negative.
pub open spec fn signed_decimal_text(n: int) -> Seq<char> {
    if n < 0 {
        seq!['-'] + decimal_text((-n) as nat)
    } else {
        decimal_text(n as nat)
    }
}

/// `n` times the character `c`.
pub open spec fn repeated(c: char, n: nat) -> Seq<char> {
    Seq::new(n, |i: int| c)
}

/// `s`, filled up on the right with spaces to `width` characters.
pub open spec fn padded_right(s: Seq<char>, width: nat) -> Seq<char> {
    if s.len() < width {
        s + repeated(' ', (width - s.len()) as nat)
    } else {
        s
    }
}

/// `s`, filled up on the left with spaces to `width` characters.
pub open spec fn padded_left(s: Seq<char>, width: nat) -> Seq<char> {
    if s.len() < width {
        repeated(' ', (width - s.len()) as nat) + s
    } else {
        s
    }
}

/// A line feed or a carriage return.
pub open spec fn is_line_end(c: char) -> bool {
    c == '\n' || c == '\r'
}

/// `s` without the line feeds and carriage returns at its end.
pub open spec fn without_line_end(s: Seq<char>) -> Seq<char>
    decreases s.len(),
{
    if s.len() > 0 && is_line_end(s.last()) {
        without_line_end(s.drop_last())
    } else {
        s
    }
}

/// What is left of a text without its line end.
pub proof fn lemma_without_line_end(a: Seq<char>, b: Seq<char>)
    requires
        a.len() > 0 ==> !is_line_end(a.last()),
        forall|i: int| 0 <= i < b.len() ==> is_line_end(#[trigger] b[i]),
    ensures
        without_line_end(a + b) == a,
    decreases b.len(),
{
    if b.len() == 0 {
        assert(a + b =~= a);
    } else {
        assert(is_line_end(b[b.len() - 1]));
        assert((a + b).drop_last() =~= a + b.drop_last());
        lemma_without_line_end(a, b.drop_last());
    }
}

/// The views of a sequence of owned strings.
pub open spec fn texts(v: Seq<String>) -> Seq<Seq<char>> {
    v.map_values(|s: String| s@)
}

/// The views of a sequence of borrowed strings.
pub open spec fn str_texts(v: Seq<&str>) -> Seq<Seq<char>> {
    v.map_values(|s: &str| s@)
}

/// The view of an optional string.
pub open spec fn opt_text(o: Option<String>) -> Option<Seq<char>> {
    match o {
        Some(s) => Some(s@),
        None => None,
    }
}

/// Two texts with the same encoding are the same text.
pub proof fn lemma_encoding_injective(a: Seq<char>, b: Seq<char>)
    requires
        encode_utf8(a) == encode_utf8(b),
    ensures
        a == b,
{
    encode_utf8_decode_utf8(a);
    encode_utf8_decode_utf8(b);
}

/// Whether two strings hold the same characters.
pub fn same_text(a: &str, b: &str) -> (r: bool)
    ensures
        r == (a@ == b@),
{
    let x = a.as_bytes();
    let y = b.as_bytes();
    if x.len() != y.len() {
        return false;
    }
    let n: usize = x.len();
    for i in 0..n
        invariant
            n == x@.len(),
            n == y@.len(),
            x@ == encode_utf8(a@),
            y@ == encode_utf8(b@),
            forall|j: int| 0 <= j < i ==> x@[j] == y@[j],
    {
        if x[i] != y[i] {
            return false;
        }
    }
    proof {
        assert(x@ =~= y@);
        lemma_encoding_injective(a@, b@);
    }
    true
}

/// The characters of a string.
pub fn chars_of(s: &str) -> (r: Vec<char>)
    ensures
        r@ == s@,
{
    let mut r: Vec<char> = Vec::new();
    for c in it: s.chars()
        invariant
            it.seq() == s@,
            r@ == s@.take(it.index()),
    {
        r.push(c);
        assert(s@.take(it.index() + 1) =~= s@.take(it.index()).push(s@[it.index()]));
    }
    assert(s@.take(s@.len() as int) =~= s@);
    r
}

/// The string made of the characters `v[from..to]`.
pub fn string_of(v: &Vec<char>, from: usize, to: usize) -> (r: String)
    requires
        from <= to <= v@.len(),
    ensures
        r@ == v@.subrange(from as int, to as int),
{
    let mut r = String::new();
    for i in from..to
        invariant
            from <= i <= to,
            to <= v@.len(),
            r@ == v@.subrange(from as int, i as int),
    {
        r.push(v[i]);
        assert(v@.subrange(from as int, i + 1) =~= v@.subrange(from as int, i as int).push(
            v@[i as int],
        ));
    }
    r
}

/// Whether `needle` stands in `hay` at index `i`.
pub fn stands_at(hay: &Vec<char>, needle: &Vec<char>, i: usize) -> (r: bool)
    ensures
        r == occurs_at(hay@, needle@, i as int),
{
    if hay.len() < needle.len() || hay.len() - needle.len() < i {
        return false;
    }
    let n: usize = needle.len();
    let h: usize = hay.len();
    for k in 0..n
        invariant
            n == needle@.len(),
            h == hay@.len(),
            i + n <= h,
            forall|j: int| 0 <= j < k ==> hay@[i + j] == needle@[j],
    {
        if hay[i + k] != needle[k] {
            proof {
                if occurs_at(hay@, needle@, i as int) {
                    assert(hay@.subrange(i as int, i + n)[k as int] == hay@[i + k]);
                }
            }
            return false;
        }
    }
    assert(hay@.subrange(i as int, i + n) =~= needle@);
    true
}

/// The lowest index at which `needle` stands in `hay`, searching from `from`.
pub fn find_from(hay: &Vec<char>, needle: &Vec<char>, from: usize) -> (r: Option<usize>)
    ensures
        match r {
            Some(i) => from <= i && occurs_at(hay@, needle@, i as int) && forall|j: int|
                from <= j < i ==> !#[trigger] occurs_at(hay@, needle@, j),
            None => forall|j: int| from <= j ==> !#[trigger] occurs_at(hay@, needle@, j),
        },
{
    let mut i: usize = from;
    while i < hay.len()
        invariant
            from <= i,
            forall|j: int| from <= j < i ==> !#[trigger] occurs_at(hay@, needle@, j),
        decreases hay@.len() - i,
    {
        if stands_at(hay, needle, i) {
            return Some(i);
        }
        i += 1;
    }
    if stands_at(hay, needle, i) {
        Some(i)
    } else {
        None
    }
}

/// Writes a number in decimal.
pub fn decimal(n: usize) -> (r: String)
    ensures
        r@ == decimal_text(n as nat),
    decreases n,
{
    if n < 10 {
        let mut r = String::new();
        let d: u8 = 48 + n as u8;
        r.push(d as char);
        assert(r@ =~= seq![digit(n as nat)]);
        r
    } else {
        let mut r = decimal(n / 10);
        let d: u8 = 48 + (n % 10) as u8;
        r.push(d as char);
        r
    }
}

/// Writes a signed number in decimal.
pub fn signed_decimal(n: i64) -> (r: String)
    ensures
        r@ == signed_decimal_text(n as int),
{
    let mut r = String::new();
    if n < 0 {
        r.push('-');
        let m: u64 = if n == i64::MIN {
            9223372036854775808u64
        } else {
            (-n) as u64
        };
        push_decimal(&mut r, m);
        assert(r@ =~= seq!['-'] + decimal_text((-n) as nat));
    } else {
        push_decimal(&mut r, n as u64);
        assert(r@ =~= decimal_text(n as nat));
    }
    r
}

/// Appends a number in decimal.
fn push_decimal(r: &mut String, n: u64)
    ensures
        final(r)@ == old(r)@ + decimal_text(n as nat),
    decreases n,
{
    if n >= 10 {
        push_decimal(r, n / 10);
    }
    let d: u8 = 48 + (n % 10) as u8;
    r.push(d as char);
    assert(r@ =~= old(r)@ + decimal_text(n as nat));
}

/// Appends `n` times the character `c`.
pub fn push_repeated(r: &mut String, c: char, n: usize)
    ensures
        final(r)@ == old(r)@ + repeated(c, n as nat),
{
    let ghost before = r@;
    for i in 0..n
        invariant
            r@ == before + repeated(c, i as nat),
    {
        r.push(c);
        assert(r@ =~= before + repeated(c, (i + 1) as nat));
    }
    assert(r@ =~= before + repeated(c, n as nat));
}

/// Fills `s` up on the right with spaces.
pub fn pad_right(s: &str, width: usize) -> (r: String)
    ensures
        r@ == padded_right(s@, width as nat),
{
    let mut r = String::new();
    r.append(s);
    let n: usize = s.unicode_len();
    if n < width {
        push_repeated(&mut r, ' ', width - n);
    }
    assert(r@ =~= padded_right(s@, width as nat));
    r
}

/// Fills `s` up on the left with spaces.
pub fn pad_left(s: &str, width: usize) -> (r: String)
    ensures
        r@ == padded_left(s@, width as nat),
{
    let mut r = String::new();
    let n: usize = s.unicode_len();
    if n < width {
        push_repeated(&mut r, ' ', width - n);
    }
    r.append(s);
    assert(r@ =~= padded_left(s@, width as nat));
    r
}

/// An owned copy of a string.
pub fn owned(s: &str) -> (r: String)
    ensures
        r@ == s@,
{
    s.to_owned()
}

/// `a` followed by `b`.
pub fn concat2(a: &str, b: &str) -> (r: String)
    ensures
        r@ == a@ + b@,
{
    let mut r = String::new();
    r.append(a);
    r.append(b);
    assert(r@ =~= a@ + b@);
    r
}

/// `a` followed by `b` and `c`.
pub fn concat3(a: &str, b: &str, c: &str) -> (r: String)
    ensures
        r@ == a@ + b@ + c@,
{
    let mut r = concat2(a, b);
    r.append(c);
    r
}

/// A copy of a list of strings.
pub fn clone_strings(v: &Vec<String>) -> (r: Vec<String>)
    ensures
        r@ == v@,
{
    let mut r: Vec<String> = Vec::new();
    for i in 0..v.len()
        invariant
            r@ == v@.take(i as int),
    {
        r.push(v[i].clone());
        assert(v@.take(i + 1) =~= v@.take(i as int).push(v@[i as int]));
    }
    assert(v@.take(v@.len() as int) =~= v@);
    r
}

/// The strings in order, with `sep` between neighbours.
pub fn join_strs(parts: &Vec<&str>, sep: &str) -> (r: String)
    ensures
        r@ == join(str_texts(parts@), sep@),
{
    let ghost all = str_texts(parts@);
    let mut r = String::new();
    for i in 0..parts.len()
        invariant
            all == str_texts(parts@),
            all.len() == parts@.len(),
            r@ == join(all.take(i as int), sep@),
    {
        if i > 0 {
            r.append(sep);
        }
        r.append(parts[i]);
        proof {
            assert(all.take(i + 1).drop_last() =~= all.take(i as int));
            assert(all.take(i + 1).last() == parts@[i as int]@);
            if i == 0 {
                assert(r@ =~= all.take(1)[0]);
            }
        }
    }
    assert(all.take(all.len() as int) =~= all);
    r
}

/// The strings in order, with `sep` between neighbours.
pub fn join_strings(parts: &Vec<String>, sep: &str) -> (r: String)
    ensures
        r@ == join(texts(parts@), sep@),
{
    let ghost all = texts(parts@);
    let mut r = String::new();
    for i in 0..parts.len()
        invariant
            all == texts(parts@),
            all.len() == parts@.len(),
            r@ == join(all.take(i as int), sep@),
    {
        if i > 0 {
            r.append(sep);
        }
        r.append(parts[i].as_str());
        proof {
            assert(all.take(i + 1).drop_last() =~= all.take(i as int));
            assert(all.take(i + 1).last() == parts@[i as int]@);
            if i == 0 {
                assert(r@ =~= all.take(1)[0]);
            }
        }
    }
    assert(all.take(all.len() as int) =~= all);
    r
}

/// `s` without the line feeds and carriage returns at its end.
pub fn trim_line_end(s: &str) -> (r: String)
    ensures
        r@ == without_line_end(s@),
{
    let v = chars_of(s);
    let mut n: usize = v.len();
    assert(v@.take(v@.len() as int) =~= v@);
    while n > 0 && (v[n - 1] == '\n' || v[n - 1] == '\r')
        invariant
            n <= v@.len(),
            without_line_end(v@) == without_line_end(v@.take(n as int)),
        decreases n,
    {
        proof {
            assert(v@.take(n as int).drop_last() =~= v@.take(n - 1));
        }
        n = n - 1;
    }
    assert(v@.take(n as int) =~= v@.subrange(0, n as int));
    string_of(&v, 0, n)
}

/// An ASCII byte of an encoded text is a character of its own.
pub proof fn lemma_ascii_boundaries(bytes: Seq<u8>, i: int)
    requires
        valid_utf8(bytes),
        0 <= i < bytes.len(),
        bytes[i] < 0x80,
    ensures
        is_char_boundary(bytes, i),
        is_char_boundary(bytes, i + 1),
    decreases bytes.len(),
{
    let n = length_of_first_scalar(bytes);
    reveal_with_fuel(is_char_boundary, 2);
    if i < n {
        assert(i == 0);
    } else {
        let rest = pop_first_scalar(bytes);
        assert(rest[i - n] == bytes[i]);
        lemma_ascii_boundaries(rest, i - n);
    }
}

/// A character boundary of a text is one of every longer piece cut off at a boundary.
pub proof fn lemma_boundary_in_prefix(bytes: Seq<u8>, i: int, end: int)
    requires
        valid_utf8(bytes),
        is_char_boundary(bytes, i),
        is_char_boundary(bytes, end),
        0 <= i <= end <= bytes.len(),
    ensures
        valid_utf8(bytes.subrange(0, end)),
        is_char_boundary(bytes.subrange(0, end), i),
{
    let front = bytes.subrange(0, end);
    valid_utf8_split(bytes, end);
    if i == end {
        is_char_boundary_start_end_of_seq(front);
    } else {
        is_char_boundary_iff_not_is_continuation_byte(bytes, i);
        is_char_boundary_iff_not_is_continuation_byte(front, i);
        assert(front[i] == bytes[i]);
    }
}

/// The piece of `s` between two byte offsets.
pub fn slice<'a>(s: &'a str, from: usize, to: usize) -> (r: &'a str)
    requires
        from <= to <= s.spec_bytes().len(),
        is_char_boundary(s.spec_bytes(), from as int),
        is_char_boundary(s.spec_bytes(), to as int),
    ensures
        r.spec_bytes() == s.spec_bytes().subrange(from as int, to as int),
{
    proof {
        encode_utf8_valid_utf8(s@);
        lemma_boundary_in_prefix(s.spec_bytes(), from as int, to as int);
    }
    let (front, _) = s.split_at(to);
    let (_, piece) = front.split_at(from);
    assert(piece.spec_bytes() =~= s.spec_bytes().subrange(from as int, to as int));
    piece
}

/// Nothing put together is nothing, one part is itself, and one part more adds the
/// separator and the part.
pub proof fn law_join_adds_part_by_part<T>(parts: Seq<Seq<T>>, sep: Seq<T>, part: Seq<T>)
    ensures
        join(Seq::<Seq<T>>::empty(), sep) == Seq::<T>::empty(),
        join(seq![part], sep) == part,
        parts.len() > 0 ==> join(parts.push(part), sep) == join(parts, sep) + sep + part,
{
    assert(parts.push(part).drop_last() =~= parts);
}

/// A text that is filled up keeps its characters, at the left or at the right, and has
/// nothing but spaces beside them, as many as the width calls for.
pub proof fn law_padding_adds_spaces_only(s: Seq<char>, width: nat)
    ensures
        padded_right(s, width).len() == padded_left(s, width).len(),
        padded_right(s, width).len() == (if s.len() < width {
            width
        } else {
            s.len()
        }),
        padded_right(s, width).take(s.len() as int) == s,
        forall|i: int|
            s.len() <= i < padded_right(s, width).len() ==> #[trigger] padded_right(s, width)[i]
                == ' ',
        padded_left(s, width).skip(padded_left(s, width).len() - s.len()) == s,
        forall|i: int|
            0 <= i < padded_left(s, width).len() - s.len() ==> #[trigger] padded_left(s, width)[i]
                == ' ',
{
    assert(padded_right(s, width).take(s.len() as int) =~= s);
    assert(padded_left(s, width).skip(padded_left(s, width).len() - s.len()) =~= s);
}

/// A text stands in another where its elements follow each other there.
pub proof fn law_occurrence<T>(hay: Seq<T>, needle: Seq<T>, i: int)
    ensures
        occurs_at(hay, needle, i) <==> 0 <= i && i + needle.len() <= hay.len() && forall|k: int|
            0 <= k < needle.len() ==> hay[i + k] == #[trigger] needle[k],
{
    if occurs_at(hay, needle, i) {
        assert forall|k: int| 0 <= k < needle.len() implies hay[i + k] == #[trigger] needle[k] by {
            assert(hay.subrange(i, (i + needle.len()) as int)[k] == hay[i + k]);
        }
    } else if 0 <= i && i + needle.len() <= hay.len() && (forall|k: int|
        0 <= k < needle.len() ==> hay[i + k] == #[trigger] needle[k]) {
        assert(hay.subrange(i, (i + needle.len()) as int) =~= needle);
    }
}

/// Of a line read from the terminal nothing is lost but line feeds and carriage returns
/// at its end, and all of those are.
pub proof fn law_only_the_line_end_is_cut(s: Seq<char>)
    ensures
        without_line_end(s).len() <= s.len(),
        without_line_end(s) == s.take(without_line_end(s).len() as int),
        forall|i: int|
            without_line_end(s).len() <= i < s.len() ==> (#[trigger] s[i] == '\n' || s[i] == '\r'),
        without_line_end(s).len() > 0 ==> without_line_end(s).last() != '\n' && without_line_end(
            s,
        ).last() != '\r',
    decreases s.len(),
{
    if s.len() > 0 && is_line_end(s.last()) {
        let front = s.drop_last();
        law_only_the_line_end_is_cut(front);
        let n = without_line_end(front).len() as int;
        assert(front.take(n) =~= s.take(n));
        assert forall|i: int| n <= i < s.len() implies (#[trigger] s[i] == '\n' || s[i] == '\r') by {
            if i < front.len() {
                assert(front[i] == s[i]);
            }
        }
    } else {
        assert(s.take(s.len() as int) =~= s);
    }
}

/// The number of line feeds in two texts one behind the other is the sum of theirs.
pub proof fn law_count_adds_up<T>(a: Seq<T>, b: Seq<T>, x: T)
    ensures
        count(a + b, x) == count(a, x) + count(b, x),
        count(seq![x], x) == 1,
        forall|y: T| y != x ==> #[trigger] count(seq![y], x) == 0,
    decreases b.len(),
{
    reveal_with_fuel(count, 2);
    assert(seq![x].drop_last() =~= Seq::empty());
    assert forall|y: T| y != x implies #[trigger] count(seq![y], x) == 0 by {
        assert(seq![y].drop_last() =~= Seq::empty());
    }
    if b.len() == 0 {
        assert(a + b =~= a);
    } else {
        law_count_adds_up(a, b.drop_last(), x);
        assert((a + b).drop_last() =~= a + b.drop_last());
    }
}

/// Ten to the power of `k`.
spec fn ten_to(k: nat) -> nat
    decreases k,
{
    if k == 0 {
        1
    } else {
        10 * ten_to((k - 1) as nat)
    }
}

proof fn lemma_digits_below(n: nat, k: nat)
    requires
        1 <= k,
        n < ten_to(k),
    ensures
        decimal_text(n).len() <= k,
    decreases k,
{
    if k == 1 {
        reveal_with_fuel(ten_to, 2);
    } else if n >= 10 {
        lemma_digits_below(n / 10, (k - 1) as nat);
    }
}

/// A number that the machine can hold has twenty digits at most.
pub proof fn lemma_digits_of_a_count(n: usize)
    ensures
        1 <= decimal_text(n as nat).len() <= 20,
{
    reveal_with_fuel(ten_to, 21);
    assert(ten_to(20) == 100000000000000000000);
    lemma_digits_below(n as nat, 20);
}

} // verus!

//! Strings as sequences of characters: building, splitting and ordering them.

use vstd::prelude::*;
use vstd::utf8::encode_utf8;
use vstd::string::StringExecFns;

verus! {

/// [`String::push`] appends one character.
pub assume_specification[ String::push ](s: &mut String, c: char)
    ensures
        final(s)@ == old(s)@.push(c),
;

/// [`String::pop`] takes the last character off, if there is one.
pub assume_specification[ String::pop ](s: &mut String) -> (r: Option<char>)
    ensures
        old(s)@.len() == 0 ==> r is None && final(s)@ == old(s)@,
        old(s)@.len() > 0 ==> r == Some(old(s)@.last()) && final(s)@ == old(s)@.drop_last(),
;

/// The characters of `s`.
pub fn chars_of(s: &str) -> (r: Vec<char>)
    ensures
        r@ == s@,
{
    let mut r: Vec<char> = Vec::new();
    for c in it: s.chars()
        invariant
            it.seq() == s@,
            r@ == it.seq().take(it.index() as int),
    {
        r.push(c);
    }
    r
}

/// The characters `from..to` of `v` as a string.
pub fn string_of(v: &Vec<char>, from: usize, to: usize) -> (r: String)
    requires
        from <= to <= v@.len(),
    ensures
        r@ == v@.subrange(from as int, to as int),
{
    let mut r: String = String::new();
    let mut i: usize = from;
    while i < to
        invariant
            from <= i <= to <= v@.len(),
            r@ == v@.subrange(from as int, i as int),
        decreases to - i,
    {
        r.push(v[i]);
        i += 1;
    }
    r
}

/// Owns a copy of `s`.
pub fn owned(s: &str) -> (r: String)
    ensures
        r@ == s@,
{
    s.to_owned()
}

/// Whether `s` begins with `c`.
pub fn starts_with_char(s: &str, c: char) -> (r: bool)
    ensures
        r == (s@.len() > 0 && s@[0] == c),
{
    for x in it: s.chars()
        invariant
            it.seq() == s@,
            it.index() == 0,
    {
        return x == c;
    }
    false
}

/// Both strings, one after the other.
pub fn concat(a: &str, b: &str) -> (r: String)
    ensures
        r@ == a@ + b@,
{
    let mut r: String = owned(a);
    r.append(b);
    r
}

/// `n` copies of `c`.
pub open spec fn repeated(c: char, n: nat) -> Seq<char> {
    Seq::new(n, |i: int| c)
}

/// Appends `n` copies of `c`.
pub fn push_repeated(s: &mut String, c: char, n: usize)
    ensures
        final(s)@ == old(s)@ + repeated(c, n as nat),
{
    let mut i: usize = 0;
    while i < n
        invariant
            i <= n,
            s@ == old(s)@ + repeated(c, i as nat),
        decreases n - i,
    {
        s.push(c);
        proof {
            assert(s@ =~= old(s)@ + repeated(c, (i + 1) as nat));
        }
        i += 1;
    }
}

/// `s` after as many spaces as make it `width` characters wide.
pub open spec fn padded_left(s: Seq<char>, width: nat) -> Seq<char> {
    if s.len() < width {
        repeated(' ', (width - s.len()) as nat) + s
    } else {
        s
    }
}

/// Right-aligns `s` in `width` characters.
pub fn pad_left(s: &str, width: usize) -> (r: String)
    ensures
        r@ == padded_left(s@, width as nat),
{
    let v: Vec<char> = chars_of(s);
    let mut r: String = String::new();
    if v.len() < width {
        push_repeated(&mut r, ' ', width - v.len());
    }
    r.append(s);
    r
}

// ---- decimal numbers ----

/// The decimal digit `d`.
pub open spec fn digit(d: nat) -> char {
    ('0' as u32 + d) as char
}

/// The decimal digits of `n`, without leading zeros.
pub open spec fn decimal(n: nat) -> Seq<char>
    decreases n,
{
    if n < 10 {
        seq![digit(n)]
    } else {
        decimal(n / 10).push(digit(n % 10))
    }
}

/// `n` in decimal, with a minus sign where it is negative.
pub open spec fn signed_decimal(n: int) -> Seq<char> {
    if n < 0 {
        seq!['-'] + decimal((-n) as nat)
    } else {
        decimal(n as nat)
    }
}

/// Appends `n` in decimal.
pub fn push_decimal(s: &mut String, n: u64)
    ensures
        final(s)@ == old(s)@ + decimal(n as nat),
    decreases n,
{
    if n >= 10 {
        push_decimal(s, n / 10);
    }
    let d: u8 = (n % 10) as u8;
    s.push((48 + d) as char);
    proof {
        assert(s@ =~= old(s)@ + decimal(n as nat));
    }
}

/// `n` in decimal.
pub fn decimal_text(n: u64) -> (r: String)
    ensures
        r@ == decimal(n as nat),
{
    let mut r: String = String::new();
    push_decimal(&mut r, n);
    proof {
        assert(Seq::<char>::empty() + decimal(n as nat) =~= decimal(n as nat));
    }
    r
}

/// `n` in decimal, with its sign.
pub fn signed_decimal_text(n: i32) -> (r: String)
    ensures
        r@ == signed_decimal(n as int),
{
    let mut r: String = String::new();
    if n < 0 {
        r.push('-');
        push_decimal(&mut r, (-(n as i64)) as u64);
        proof {
            assert(r@ =~= seq!['-'] + decimal((-n) as nat));
        }
    } else {
        push_decimal(&mut r, n as u64);
        proof {
            assert(r@ =~= decimal(n as nat));
        }
    }
    r
}

// ---- splitting and joining ----

/// The pieces of `s` between occurrences of `sep`; there is always at least one.
pub open spec fn split(s: Seq<char>, sep: char) -> Seq<Seq<char>>
    decreases s.len(),
{
    if s.len() == 0 {
        seq![Seq::<char>::empty()]
    } else {
        let before = split(s.drop_last(), sep);
        if s.last() == sep {
            before.push(Seq::<char>::empty())
        } else {
            before.drop_last().push(before.last().push(s.last()))
        }
    }
}

/// The pieces that are not empty.
pub open spec fn non_empty(parts: Seq<Seq<char>>) -> Seq<Seq<char>>
    decreases parts.len(),
{
    if parts.len() == 0 {
        parts
    } else {
        let before = non_empty(parts.drop_last());
        if parts.last().len() > 0 {
            before.push(parts.last())
        } else {
            before
        }
    }
}

/// The names that a path is made of.
pub open spec fn components(path: Seq<char>) -> Seq<Seq<char>> {
    non_empty(split(path, '/'))
}

/// The parts with `sep` between them.
pub open spec fn joined(parts: Seq<Seq<char>>, sep: Seq<char>) -> Seq<char>
    decreases parts.len(),
{
    if parts.len() == 0 {
        Seq::<char>::empty()
    } else if parts.len() == 1 {
        parts[0]
    } else {
        joined(parts.drop_last(), sep) + sep + parts.last()
    }
}

/// The characters of each string.
pub open spec fn texts(v: Seq<String>) -> Seq<Seq<char>> {
    v.map_values(|s: String| s@)
}

pub proof fn lemma_texts_push(v: Seq<String>, s: String)
    ensures
        texts(v.push(s)) == texts(v).push(s@),
{
    assert(texts(v.push(s)) =~= texts(v).push(s@));
}

pub proof fn lemma_split_len(s: Seq<char>, sep: char)
    ensures
        split(s, sep).len() > 0,
    decreases s.len(),
{
    if s.len() > 0 {
        lemma_split_len(s.drop_last(), sep);
    }
}

/// Whether `s` can stand between two slashes: not empty, no slash in it.
pub open spec fn is_component(s: Seq<char>) -> bool {
    s.len() > 0 && !s.contains('/')
}

/// Pieces do not hold what they were split at.
proof fn lemma_split_clean(s: Seq<char>, sep: char)
    ensures
        forall|i: int| 0 <= i < split(s, sep).len() ==> !(#[trigger] split(s, sep)[i]).contains(sep),
    decreases s.len(),
{
    if s.len() > 0 {
        lemma_split_clean(s.drop_last(), sep);
        lemma_split_len(s.drop_last(), sep);
        let before = split(s.drop_last(), sep);
        assert(!before[before.len() - 1].contains(sep));
        if s.last() != sep {
            let grown = before.last().push(s.last());
            if grown.contains(sep) {
                let k = choose|k: int| 0 <= k < grown.len() && grown[k] == sep;
                assert(before.last()[k] == sep);
            }
        }
    }
}

proof fn lemma_non_empty_members(parts: Seq<Seq<char>>)
    ensures
        forall|i: int|
            0 <= i < non_empty(parts).len() ==> parts.contains(#[trigger] non_empty(parts)[i])
                && non_empty(parts)[i].len() > 0,
    decreases parts.len(),
{
    if parts.len() > 0 {
        let front = parts.drop_last();
        lemma_non_empty_members(front);
        assert forall|i: int| 0 <= i < non_empty(parts).len() implies parts.contains(
            #[trigger] non_empty(parts)[i],
        ) && non_empty(parts)[i].len() > 0 by {
            if i < non_empty(front).len() {
                assert(front.contains(non_empty(front)[i]));
                let k = choose|k: int| 0 <= k < front.len() && front[k] == non_empty(front)[i];
                assert(parts[k] == non_empty(parts)[i]);
            } else {
                assert(parts[parts.len() - 1] == parts.last());
            }
        }
    }
}

/// The components of a path can stand between slashes.
pub proof fn lemma_components_proper(path: Seq<char>)
    ensures
        forall|i: int| 0 <= i < components(path).len() ==> is_component(
            #[trigger] components(path)[i],
        ),
{
    let parts = split(path, '/');
    lemma_split_clean(path, '/');
    lemma_non_empty_members(parts);
    assert forall|i: int| 0 <= i < components(path).len() implies is_component(
        #[trigger] components(path)[i],
    ) by {
        let x = non_empty(parts)[i];
        assert(parts.contains(x));
        let k = choose|k: int| 0 <= k < parts.len() && parts[k] == x;
    }
}

/// Appending text without separators only grows the last piece.
proof fn lemma_split_append(s: Seq<char>, t: Seq<char>, sep: char)
    requires
        !t.contains(sep),
    ensures
        split(s + t, sep) == split(s, sep).drop_last().push(split(s, sep).last() + t),
    decreases t.len(),
{
    lemma_split_len(s, sep);
    let before = split(s, sep);
    if t.len() == 0 {
        assert(s + t =~= s);
        assert(before.last() + t =~= before.last());
        assert(before.drop_last().push(before.last()) =~= before);
    } else {
        let u = t.drop_last();
        assert(!u.contains(sep)) by {
            if u.contains(sep) {
                let k = choose|k: int| 0 <= k < u.len() && u[k] == sep;
                assert(t[k] == sep);
            }
        }
        lemma_split_append(s, u, sep);
        assert((s + t).drop_last() =~= s + u);
        assert((s + t).last() == t.last());
        assert(t[t.len() - 1] == t.last());
        let mid = split(s + u, sep);
        assert(mid.drop_last() =~= before.drop_last());
        assert((before.last() + u).push(t.last()) =~= before.last() + t);
    }
}

/// Splitting what was joined gives the parts back.
pub proof fn lemma_components_of_joined(parts: Seq<Seq<char>>)
    requires
        forall|i: int| 0 <= i < parts.len() ==> is_component(#[trigger] parts[i]),
    ensures
        components(joined(parts, seq!['/'])) == parts,
        parts.len() > 0 ==> split(joined(parts, seq!['/']), '/') == parts,
    decreases parts.len(),
{
    let empty = Seq::<char>::empty();
    assert(split(empty, '/') =~= seq![empty]);
    if parts.len() == 0 {
        assert(seq![empty].drop_last() =~= Seq::<Seq<char>>::empty());
        assert(non_empty(Seq::<Seq<char>>::empty()) =~= parts);
        assert(seq![empty].last().len() == 0);
    } else {
        let last = parts.last();
        assert(is_component(parts[parts.len() - 1]));
        let front = parts.drop_last();
        assert forall|i: int| 0 <= i < front.len() implies is_component(#[trigger] front[i]) by {
            assert(is_component(parts[i]));
        }
        if parts.len() == 1 {
            lemma_split_append(empty, last, '/');
            assert(empty + last =~= last);
            assert(seq![empty].drop_last().push(seq![empty].last() + last) =~= parts);
        } else {
            lemma_components_of_joined(front);
            let head = joined(front, seq!['/']);
            let slashed = head + seq!['/'];
            assert(slashed.drop_last() =~= head);
            assert(split(slashed, '/') == split(head, '/').push(empty));
            lemma_split_append(slashed, last, '/');
            assert(slashed + last =~= joined(parts, seq!['/']));
            assert(empty + last =~= last);
            assert(split(slashed, '/').drop_last() =~= front);
            assert(front.push(last) =~= parts);
        }
        lemma_non_empty_keeps(parts);
    }
}

/// Nothing is dropped where nothing is empty.
proof fn lemma_non_empty_keeps(parts: Seq<Seq<char>>)
    requires
        forall|i: int| 0 <= i < parts.len() ==> is_component(#[trigger] parts[i]),
    ensures
        non_empty(parts) == parts,
    decreases parts.len(),
{
    if parts.len() > 0 {
        let front = parts.drop_last();
        assert forall|i: int| 0 <= i < front.len() implies is_component(#[trigger] front[i]) by {
            assert(is_component(parts[i]));
        }
        lemma_non_empty_keeps(front);
        assert(is_component(parts[parts.len() - 1]));
        assert(front.push(parts.last()) =~= parts);
    }
}

/// Splits `s` at every `sep`.
pub fn split_text(s: &str, sep: char) -> (r: Vec<String>)
    ensures
        texts(r@) == split(s@, sep),
{
    let v: Vec<char> = chars_of(s);
    let mut r: Vec<String> = Vec::new();
    let mut cur: String = String::new();
    let mut i: usize = 0;
    proof {
        assert(v@.take(0) =~= Seq::<char>::empty());
        assert(texts(r@).push(cur@) =~= split(v@.take(0), sep));
    }
    while i < v.len()
        invariant
            i <= v@.len(),
            texts(r@).push(cur@) == split(v@.take(i as int), sep),
        decreases v@.len() - i,
    {
        let c: char = v[i];
        let ghost before = texts(r@).push(cur@);
        proof {
            assert(v@.take(i + 1).drop_last() =~= v@.take(i as int));
            assert(before.drop_last() =~= texts(r@));
        }
        if c == sep {
            proof {
                lemma_texts_push(r@, cur);
            }
            r.push(cur);
            cur = String::new();
        } else {
            cur.push(c);
        }
        i += 1;
    }
    proof {
        assert(v@.take(v@.len() as int) =~= v@);
        lemma_texts_push(r@, cur);
    }
    r.push(cur);
    r
}

/// The components of a path.
pub fn components_of(path: &str) -> (r: Vec<String>)
    ensures
        texts(r@) == components(path@),
{
    let parts: Vec<String> = split_text(path, '/');
    let mut r: Vec<String> = Vec::new();
    let mut i: usize = 0;
    proof {
        assert(texts(parts@).take(0) =~= Seq::<Seq<char>>::empty());
        assert(texts(r@) =~= Seq::<Seq<char>>::empty());
    }
    while i < parts.len()
        invariant
            i <= parts@.len(),
            texts(r@) == non_empty(texts(parts@).take(i as int)),
        decreases parts@.len() - i,
    {
        proof {
            assert(texts(parts@).take(i + 1).drop_last() =~= texts(parts@).take(i as int));
        }
        if !parts[i].as_str().is_empty() {
            let name: String = parts[i].clone();
            proof {
                lemma_texts_push(r@, name);
            }
            r.push(name);
        }
        i += 1;
    }
    proof {
        assert(texts(parts@).take(parts@.len() as int) =~= texts(parts@));
    }
    r
}

/// Joins strings with `sep` between them.
pub fn join_text(parts: &Vec<String>, sep: &str) -> (r: String)
    ensures
        r@ == joined(texts(parts@), sep@),
{
    let mut r: String = String::new();
    let mut i: usize = 0;
    proof {
        assert(texts(parts@).take(0) =~= Seq::<Seq<char>>::empty());
    }
    while i < parts.len()
        invariant
            i <= parts@.len(),
            r@ == joined(texts(parts@).take(i as int), sep@),
        decreases parts@.len() - i,
    {
        proof {
            assert(texts(parts@).take(i + 1).drop_last() =~= texts(parts@).take(i as int));
        }
        if i > 0 {
            r.append(sep);
        }
        r.append(parts[i].as_str());
        proof {
            if i == 0 {
                assert(r@ =~= texts(parts@)[0]);
            } else {
                assert(r@ =~= joined(texts(parts@).take(i as int), sep@) + sep@ + texts(parts@)[i as int]);
            }
        }
        i += 1;
    }
    proof {
        assert(texts(parts@).take(parts@.len() as int) =~= texts(parts@));
    }
    r
}

/// `s` without the `c`s at its two ends.
pub open spec fn trimmed(s: Seq<char>, c: char) -> Seq<char>
    decreases s.len(),
{
    if s.len() > 0 && s.first() == c {
        trimmed(s.drop_first(), c)
    } else if s.len() > 0 && s.last() == c {
        trimmed(s.drop_last(), c)
    } else {
        s
    }
}

/// Takes every `c` off both ends of `s`.
pub fn trim_text(s: &str, c: char) -> (r: String)
    ensures
        r@ == trimmed(s@, c),
{
    let v: Vec<char> = chars_of(s);
    let mut from: usize = 0;
    proof {
        assert(v@.subrange(0, v@.len() as int) =~= v@);
    }
    while from < v.len() && v[from] == c
        invariant
            from <= v@.len(),
            trimmed(v@, c) == trimmed(v@.subrange(from as int, v@.len() as int), c),
        decreases v@.len() - from,
    {
        proof {
            assert(v@.subrange(from as int, v@.len() as int).drop_first() =~= v@.subrange(
                from + 1,
                v@.len() as int,
            ));
        }
        from += 1;
    }
    let mut to: usize = v.len();
    while to > from && v[to - 1] == c
        invariant
            from <= to <= v@.len(),
            from < to ==> v@[from as int] != c,
            trimmed(v@, c) == trimmed(v@.subrange(from as int, to as int), c),
        decreases to - from,
    {
        proof {
            assert(v@.subrange(from as int, to as int).drop_last() =~= v@.subrange(
                from as int,
                to - 1,
            ));
        }
        to -= 1;
    }
    string_of(&v, from, to)
}

// ---- order ----

/// Whether `x` comes before `y` byte by byte.
pub open spec fn byte_less(x: Seq<u8>, y: Seq<u8>) -> bool
    decreases x.len(),
{
    if y.len() == 0 {
        false
    } else if x.len() == 0 {
        true
    } else {
        x[0] < y[0] || (x[0] == y[0] && byte_less(x.drop_first(), y.drop_first()))
    }
}

/// Whether string `a` comes before string `b`: by their bytes.
pub open spec fn name_less(a: Seq<char>, b: Seq<char>) -> bool {
    byte_less(encode_utf8(a), encode_utf8(b))
}

pub proof fn lemma_byte_less_irreflexive(x: Seq<u8>)
    ensures
        !byte_less(x, x),
    decreases x.len(),
{
    if x.len() > 0 {
        lemma_byte_less_irreflexive(x.drop_first());
    }
}

pub proof fn lemma_byte_less_transitive(x: Seq<u8>, y: Seq<u8>, z: Seq<u8>)
    requires
        byte_less(x, y),
        byte_less(y, z),
    ensures
        byte_less(x, z),
    decreases x.len(),
{
    if x.len() > 0 && y.len() > 0 && z.len() > 0 && x[0] == y[0] && y[0] == z[0] {
        lemma_byte_less_transitive(x.drop_first(), y.drop_first(), z.drop_first());
    }
}

pub proof fn lemma_byte_less_total(x: Seq<u8>, y: Seq<u8>)
    ensures
        byte_less(x, y) || byte_less(y, x) || x == y,
    decreases x.len(),
{
    if x.len() > 0 && y.len() > 0 {
        lemma_byte_less_total(x.drop_first(), y.drop_first());
        if x[0] == y[0] && x.drop_first() == y.drop_first() {
            assert(x =~= seq![x[0]] + x.drop_first());
            assert(y =~= seq![y[0]] + y.drop_first());
        }
    } else {
        assert(x.len() == 0 && y.len() == 0 ==> x =~= y);
    }
}

/// Equal bytes are equal strings.
pub proof fn lemma_bytes_decide(a: Seq<char>, b: Seq<char>)
    ensures
        (encode_utf8(a) == encode_utf8(b)) == (a == b),
{
    vstd::utf8::encode_utf8_decode_utf8(a);
    vstd::utf8::encode_utf8_decode_utf8(b);
}

/// The byte order of strings is a strict total order.
pub proof fn lemma_name_order(a: Seq<char>, b: Seq<char>, c: Seq<char>)
    ensures
        !name_less(a, a),
        name_less(a, b) ==> !name_less(b, a),
        name_less(a, b) && name_less(b, c) ==> name_less(a, c),
        name_less(a, b) || name_less(b, a) || a == b,
{
    let (x, y, z) = (encode_utf8(a), encode_utf8(b), encode_utf8(c));
    lemma_byte_less_irreflexive(x);
    if byte_less(x, y) && byte_less(y, x) {
        lemma_byte_less_transitive(x, y, x);
    }
    if byte_less(x, y) && byte_less(y, z) {
        lemma_byte_less_transitive(x, y, z);
    }
    lemma_byte_less_total(x, y);
    lemma_bytes_decide(a, b);
}

/// How two things stand in an order.
#[derive(Clone, Copy, Debug, PartialEq, Eq, Structural)]
pub enum Order {
    Before,
    Same,
    After,
}

/// Compares two strings by their bytes.
pub fn name_order(a: &str, b: &str) -> (r: Order)
    ensures
        r == Order::Before <==> name_less(a@, b@),
        r == Order::After <==> name_less(b@, a@),
        r == Order::Same <==> a@ == b@,
{
    let x: &[u8] = a.as_bytes();
    let y: &[u8] = b.as_bytes();
    proof {
        lemma_name_order(a@, b@, a@);
        lemma_name_order(b@, a@, b@);
        assert(x@.skip(0) =~= x@ && y@.skip(0) =~= y@);
        lemma_bytes_decide(a@, b@);
    }
    let mut i: usize = 0;
    while i < x.len() && i < y.len() && x[i] == y[i]
        invariant
            i <= x@.len(),
            i <= y@.len(),
            byte_less(x@, y@) == byte_less(x@.skip(i as int), y@.skip(i as int)),
            byte_less(y@, x@) == byte_less(y@.skip(i as int), x@.skip(i as int)),
        decreases x@.len() - i,
    {
        proof {
            assert(x@.skip(i as int).drop_first() =~= x@.skip(i + 1));
            assert(y@.skip(i as int).drop_first() =~= y@.skip(i + 1));
        }
        i += 1;
    }
    if i < x.len() && i < y.len() {
        if x[i] < y[i] {
            Order::Before
        } else {
            Order::After
        }
    } else if i < y.len() {
        Order::Before
    } else if i < x.len() {
        Order::After
    } else {
        Order::Same
    }
}

/// Whether two strings are the same.
pub fn same_text(a: &str, b: &str) -> (r: bool)
    ensures
        r == (a@ == b@),
{
    name_order(a, b) == Order::Same
}

/// A copy of some texts.
pub fn copied(v: &Vec<String>) -> (r: Vec<String>)
    ensures
        texts(r@) == texts(v@),
{
    let mut r: Vec<String> = Vec::new();
    let mut i: usize = 0;
    assert(texts(r@) =~= texts(v@).take(0));
    while i < v.len()
        invariant
            i <= v@.len(),
            texts(r@) == texts(v@).take(i as int),
        decreases v@.len() - i,
    {
        let s = owned(v[i].as_str());
        proof {
            lemma_texts_push(r@, s);
            assert(texts(v@)[i as int] == s@);
            assert(texts(v@).take(i + 1) =~= texts(v@).take(i as int).push(s@));
        }
        r.push(s);
        i += 1;
    }
    assert(texts(v@).take(v@.len() as int) =~= texts(v@));
    r
}

// ---- lines ----

/// A line without a carriage return at its end.
pub open spec fn without_return(s: Seq<char>) -> Seq<char> {
    if s.len() > 0 && s.last() == '\r' {
        s.drop_last()
    } else {
        s
    }
}

/// The lines of a text. A line ends with a line feed, or a carriage return and
/// a line feed; the last one may go without.
pub open spec fn lines(s: Seq<char>) -> Seq<Seq<char>> {
    let parts = split(s, '\n');
    let ended = parts.drop_last().map_values(|l: Seq<char>| without_return(l));
    if parts.last().len() == 0 {
        ended
    } else {
        ended.push(parts.last())
    }
}

/// The lines of a text.
pub fn lines_of(s: &str) -> (r: Vec<String>)
    ensures
        texts(r@) == lines(s@),
{
    let parts = split_text(s, '\n');
    let ghost all = split(s@, '\n');
    let ghost ended = all.drop_last().map_values(|l: Seq<char>| without_return(l));
    let mut r: Vec<String> = Vec::new();
    let mut i: usize = 0;
    proof {
        lemma_split_len(s@, '\n');
        assert(texts(r@) =~= ended.take(0));
    }
    let end = parts.len() - 1;
    while i < end
        invariant
            all == texts(parts@),
            end == parts@.len() - 1,
            i <= end,
            ended == all.drop_last().map_values(|l: Seq<char>| without_return(l)),
            texts(r@) == ended.take(i as int),
        decreases parts@.len() - i,
    {
        let mut line = owned(parts[i].as_str());
        assert(all[i as int] == parts@[i as int]@);
        if ends_with_return(&parts[i]) {
            line.pop();
        }
        proof {
            lemma_texts_push(r@, line);
            assert(ended[i as int] == line@);
            assert(ended.take(i + 1) =~= ended.take(i as int).push(line@));
        }
        r.push(line);
        i += 1;
    }
    assert(ended.take(ended.len() as int) =~= ended);
    let last = &parts[end];
    assert(all.last() == last@);
    if !last.as_str().is_empty() {
        let line = owned(last.as_str());
        proof {
            lemma_texts_push(r@, line);
        }
        r.push(line);
    }
    r
}

fn ends_with_return(s: &String) -> (r: bool)
    ensures
        r == (s@.len() > 0 && s@.last() == '\r'),
{
    let v = chars_of(s.as_str());
    v.len() > 0 && v[v.len() - 1] == '\r'
}

/// How many bytes a text has.
pub open spec fn byte_len(s: Seq<char>) -> nat {
    encode_utf8(s).len()
}

/// How many bytes `s` has.
pub fn len_of(s: &str) -> (r: usize)
    ensures
        r == byte_len(s@),
{
    s.as_bytes().len()
}

// ---- what holds of the texts ----

proof fn lemma_joined_push(parts: Seq<Seq<char>>, x: Seq<char>, sep: Seq<char>)
    requires
        parts.len() > 0,
    ensures
        joined(parts.push(x), sep) == joined(parts, sep) + sep + x,
{
    assert(parts.push(x).drop_last() =~= parts);
}

/// Splitting loses nothing: joined again with the separator the pieces give the text
/// back, and none of them holds the separator.
pub proof fn law_pieces_make_up_the_text(s: Seq<char>, sep: char)
    ensures
        joined(split(s, sep), seq![sep]) == s,
        forall|i: int| 0 <= i < split(s, sep).len() ==> !(#[trigger] split(s, sep)[i]).contains(sep),
    decreases s.len(),
{
    lemma_split_clean(s, sep);
    if s.len() == 0 {
        assert(joined(split(s, sep), seq![sep]) =~= s);
    } else {
        let front = s.drop_last();
        law_pieces_make_up_the_text(front, sep);
        lemma_split_len(front, sep);
        let before = split(front, sep);
        let (head, last) = (before.drop_last(), before.last());
        assert(head.push(last) =~= before);
        if s.last() == sep {
            lemma_joined_push(before, Seq::empty(), seq![sep]);
            assert(front + seq![sep] + Seq::empty() =~= s);
        } else {
            let grown = last.push(s.last());
            if head.len() > 0 {
                lemma_joined_push(head, last, seq![sep]);
                lemma_joined_push(head, grown, seq![sep]);
                assert(joined(head, seq![sep]) + seq![sep] + grown =~= front.push(s.last()));
            } else {
                assert(before =~= seq![last]);
                assert(head.push(grown) =~= seq![grown]);
                assert(front == last);
            }
            assert(front.push(s.last()) =~= s);
        }
    }
}

proof fn lemma_split_at(a: Seq<char>, b: Seq<char>, sep: char)
    ensures
        split(a + seq![sep] + b, sep) == split(a, sep) + split(b, sep),
    decreases b.len(),
{
    let whole = a + seq![sep] + b;
    if b.len() == 0 {
        assert(whole.drop_last() =~= a);
        assert(split(a, sep).push(Seq::empty()) =~= split(a, sep) + split(b, sep));
    } else {
        lemma_split_at(a, b.drop_last(), sep);
        lemma_split_len(b.drop_last(), sep);
        assert(whole.drop_last() =~= a + seq![sep] + b.drop_last());
        let x = split(a, sep);
        let y = split(b.drop_last(), sep);
        assert((x + y).drop_last() =~= x + y.drop_last());
        assert((x + y).last() == y.last());
        assert(split(whole, sep) =~= x + split(b, sep));
    }
}

/// Pieces that do not hold the separator, joined with it, are split into just these.
pub proof fn law_joined_pieces_are_split(parts: Seq<Seq<char>>, sep: char)
    requires
        parts.len() > 0,
        forall|i: int| 0 <= i < parts.len() ==> !(#[trigger] parts[i]).contains(sep),
    ensures
        split(joined(parts, seq![sep]), sep) == parts,
    decreases parts.len(),
{
    let none = Seq::<char>::empty();
    let last = parts.last();
    assert(!parts[parts.len() - 1].contains(sep));
    lemma_split_append(none, last, sep);
    assert(none + last =~= last);
    assert(split(none, sep) =~= seq![none]);
    assert(split(last, sep) =~= seq![last]);
    if parts.len() == 1 {
        assert(parts =~= seq![last]);
    } else {
        let front = parts.drop_last();
        assert forall|i: int| 0 <= i < front.len() implies !(#[trigger] front[i]).contains(
            sep,
        ) by {
            assert(!parts[i].contains(sep));
        }
        law_joined_pieces_are_split(front, sep);
        lemma_split_at(joined(front, seq![sep]), last, sep);
        assert(front + seq![last] =~= parts);
    }
}

proof fn lemma_non_empty_at(p: Seq<Seq<char>>, q: Seq<Seq<char>>)
    ensures
        non_empty(p + q) == non_empty(p) + non_empty(q),
    decreases q.len(),
{
    if q.len() == 0 {
        assert(p + q =~= p);
        assert(non_empty(p) + non_empty(q) =~= non_empty(p));
    } else {
        lemma_non_empty_at(p, q.drop_last());
        assert((p + q).drop_last() =~= p + q.drop_last());
        assert((p + q).last() == q.last());
        assert(non_empty(p + q) =~= non_empty(p) + non_empty(q));
    }
}

/// The names in a path that is put together of two are those of the one and then
/// those of the other. A name by itself is its own path, and there is none in an empty
/// path; so slashes at the ends, or next to each other, add none.
pub proof fn law_names_of_paths_add_up(a: Seq<char>, b: Seq<char>)
    ensures
        components(a + seq!['/'] + b) == components(a) + components(b),
        components(Seq::empty()) == Seq::<Seq<char>>::empty(),
        a.len() > 0 && !a.contains('/') ==> components(a) == seq![a],
        components(a + seq!['/']) == components(a),
        components(seq!['/'] + b) == components(b),
{
    lemma_split_at(a, b, '/');
    lemma_non_empty_at(split(a, '/'), split(b, '/'));
    let none = Seq::<char>::empty();
    reveal_with_fuel(non_empty, 2);
    assert(seq![none].drop_last() =~= Seq::<Seq<char>>::empty());
    assert(components(none) =~= Seq::<Seq<char>>::empty());
    if a.len() > 0 && !a.contains('/') {
        lemma_components_of_joined(seq![a]);
    }
    lemma_split_at(a, none, '/');
    lemma_non_empty_at(split(a, '/'), split(none, '/'));
    assert(a + seq!['/'] + none =~= a + seq!['/']);
    assert(components(a) + components(none) =~= components(a));
    lemma_split_at(none, b, '/');
    lemma_non_empty_at(split(none, '/'), split(b, '/'));
    assert(none + seq!['/'] + b =~= seq!['/'] + b);
    assert(components(none) + components(b) =~= components(b));
}

/// Whether `r` is the text from `i` to `j`, outside of which there is only `c`.
pub open spec fn is_middle(s: Seq<char>, c: char, i: int, j: int, r: Seq<char>) -> bool {
    &&& 0 <= i <= j <= s.len()
    &&& r == s.subrange(i, j)
    &&& forall|k: int| 0 <= k < i || j <= k < s.len() ==> #[trigger] s[k] == c
}

proof fn lemma_middle_after_first(s: Seq<char>, c: char, i: int, j: int, r: Seq<char>)
    requires
        s.len() > 0,
        s[0] == c,
        is_middle(s.drop_first(), c, i, j, r),
    ensures
        is_middle(s, c, i + 1, j + 1, r),
{
    let rest = s.drop_first();
    assert(s.subrange(i + 1, j + 1) =~= rest.subrange(i, j));
    assert forall|k: int| 0 <= k < i + 1 || j + 1 <= k < s.len() implies #[trigger] s[k] == c by {
        if k > 0 {
            assert(rest[k - 1] == s[k]);
        }
    }
}

proof fn lemma_middle_before_last(s: Seq<char>, c: char, i: int, j: int, r: Seq<char>)
    requires
        s.len() > 0,
        s[s.len() - 1] == c,
        is_middle(s.drop_last(), c, i, j, r),
    ensures
        is_middle(s, c, i, j, r),
{
    let rest = s.drop_last();
    assert(s.subrange(i, j) =~= rest.subrange(i, j));
    assert forall|k: int| 0 <= k < i || j <= k < s.len() implies #[trigger] s[k] == c by {
        if k < rest.len() {
            assert(rest[k] == s[k]);
        }
    }
}

proof fn lemma_trimmed_is_middle(s: Seq<char>, c: char) -> (r: (int, int))
    ensures
        is_middle(s, c, r.0, r.1, trimmed(s, c)),
        trimmed(s, c).len() > 0 ==> trimmed(s, c).first() != c && trimmed(s, c).last() != c,
    decreases s.len(),
{
    if s.len() > 0 && s.first() == c {
        let (i, j) = lemma_trimmed_is_middle(s.drop_first(), c);
        lemma_middle_after_first(s, c, i, j, trimmed(s, c));
        (i + 1, j + 1)
    } else if s.len() > 0 && s.last() == c {
        let (i, j) = lemma_trimmed_is_middle(s.drop_last(), c);
        lemma_middle_before_last(s, c, i, j, trimmed(s, c));
        (i, j)
    } else {
        assert(s.subrange(0, s.len() as int) =~= s);
        (0, s.len() as int)
    }
}

/// What is trimmed is the middle of the text, outside of which there is only the
/// character, and which neither starts nor ends with it.
pub proof fn law_trimming_takes_the_ends_off(s: Seq<char>, c: char)
    ensures
        trimmed(s, c).len() > 0 ==> trimmed(s, c).first() != c && trimmed(s, c).last() != c,
        exists|i: int, j: int| #[trigger] is_middle(s, c, i, j, trimmed(s, c)),
{
    let (i, j) = lemma_trimmed_is_middle(s, c);
}

/// Names go by their bytes: the first byte that differs decides, and where there is
/// none the shorter name comes first.
pub proof fn law_names_go_by_their_bytes(a: Seq<char>, b: Seq<char>)
    ensures
        name_less(a, b) <==> exists|k: int| #[trigger]
            differ_first_at(encode_utf8(a), encode_utf8(b), k) && (k == encode_utf8(a).len() || k
                < encode_utf8(b).len() && k < encode_utf8(a).len() && encode_utf8(a)[k]
                < encode_utf8(b)[k]),
{
    lemma_first_difference(encode_utf8(a), encode_utf8(b));
}

/// Whether two sequences of bytes are the same before `k` and not at it.
pub open spec fn differ_first_at(x: Seq<u8>, y: Seq<u8>, k: int) -> bool {
    &&& 0 <= k <= x.len() && k <= y.len()
    &&& k < x.len() || k < y.len()
    &&& forall|i: int| 0 <= i < k ==> x[i] == y[i]
    &&& k < x.len() && k < y.len() ==> x[k] != y[k]
}

proof fn lemma_first_difference(x: Seq<u8>, y: Seq<u8>)
    ensures
        byte_less(x, y) <==> exists|k: int| #[trigger]
            differ_first_at(x, y, k) && (k == x.len() || k < y.len() && k < x.len() && x[k] < y[k]),
    decreases x.len(),
{
    if y.len() == 0 {
    } else if x.len() == 0 {
        assert(differ_first_at(x, y, 0));
    } else {
        let (u, v) = (x.drop_first(), y.drop_first());
        lemma_first_difference(u, v);
        if x[0] != y[0] {
            assert(differ_first_at(x, y, 0));
            assert forall|k: int| #[trigger] differ_first_at(x, y, k) implies k == 0 by {}
        } else {
            if byte_less(u, v) {
                let k = choose|k: int| #[trigger]
                    differ_first_at(u, v, k) && (k == u.len() || k < v.len() && k < u.len() && u[k]
                        < v[k]);
                assert forall|i: int| 0 <= i < k + 1 implies x[i] == y[i] by {
                    if i > 0 {
                        assert(u[i - 1] == v[i - 1]);
                    }
                }
                assert(k < u.len() && k < v.len() ==> u[k] == x[k + 1] && v[k] == y[k + 1]);
                assert(differ_first_at(x, y, k + 1));
            }
            if exists|k: int| #[trigger]
                differ_first_at(x, y, k) && (k == x.len() || k < y.len() && k < x.len() && x[k]
                    < y[k]) {
                let k = choose|k: int| #[trigger]
                    differ_first_at(x, y, k) && (k == x.len() || k < y.len() && k < x.len() && x[k]
                        < y[k]);
                assert(k > 0);
                assert forall|i: int| 0 <= i < k - 1 implies u[i] == v[i] by {
                    assert(x[i + 1] == y[i + 1]);
                }
                assert(differ_first_at(u, v, k - 1));
            }
        }
    }
}

/// The length of a text is that of its bytes: one each for the characters up to the
/// last of ASCII, two and more for those beyond.
pub proof fn law_length_is_in_bytes(s: Seq<char>, c: char)
    ensures
        byte_len(Seq::empty()) == 0,
        byte_len(seq![c] + s) == byte_len(seq![c]) + byte_len(s),
        (c as u32) < 0x80 ==> byte_len(seq![c]) == 1,
        0x80 <= c as u32 && (c as u32) < 0x800 ==> byte_len(seq![c]) == 2,
        0x800 <= c as u32 && (c as u32) < 0x10000 ==> byte_len(seq![c]) == 3,
        c as u32 >= 0x10000 ==> byte_len(seq![c]) == 4,
{
    reveal_with_fuel(encode_utf8, 2);
    let t = seq![c] + s;
    assert(t.drop_first() =~= s);
    assert(seq![c].drop_first() =~= Seq::<char>::empty());
}

/// A line ends at a line feed, or at a carriage return and a line feed, and neither
/// belongs to it; what follows the last of them is a line if there is anything.
pub proof fn law_lines_end_at_line_feeds(line: Seq<char>, rest: Seq<char>)
    requires
        !line.contains('\n'),
    ensures
        lines(Seq::empty()).len() == 0,
        line.len() > 0 ==> lines(line) == seq![line],
        line.len() == 0 || line.last() != '\r' ==> lines(line + seq!['\n'] + rest) == seq![line]
            + lines(rest),
        lines(line + seq!['\r'] + seq!['\n'] + rest) == seq![line] + lines(rest),
{
    lemma_first_line(line, rest);
    let ended = line + seq!['\r'];
    assert(!ended.contains('\n')) by {
        if ended.contains('\n') {
            let k = choose|k: int| 0 <= k < ended.len() && ended[k] == '\n';
            assert(line[k] == '\n');
        }
    }
    lemma_first_line(ended, rest);
    assert(ended.drop_last() =~= line);
    let none = Seq::<char>::empty();
    assert(split(none, '\n') =~= seq![none]);
    assert(lines(none).len() == 0);
    lemma_one_piece_alone(line, '\n');
    if line.len() > 0 {
        assert(seq![line].drop_last() =~= Seq::<Seq<char>>::empty());
        assert(lines(line) =~= seq![line]);
    }
}

proof fn lemma_one_piece_alone(s: Seq<char>, sep: char)
    requires
        !s.contains(sep),
    ensures
        split(s, sep) == seq![s],
{
    let none = Seq::<char>::empty();
    lemma_split_append(none, s, sep);
    assert(none + s =~= s);
    assert(split(none, sep) =~= seq![none]);
    assert(split(s, sep) =~= seq![s]);
}

proof fn lemma_first_line(line: Seq<char>, rest: Seq<char>)
    requires
        !line.contains('\n'),
    ensures
        lines(line + seq!['\n'] + rest) == seq![without_return(line)] + lines(rest),
{
    lemma_split_at(line, rest, '\n');
    lemma_one_piece_alone(line, '\n');
    lemma_split_len(rest, '\n');
    let more = split(rest, '\n');
    let all = seq![line] + more;
    assert(all.drop_last() =~= seq![line] + more.drop_last());
    assert(all.last() == more.last());
    assert(lines(line + seq!['\n'] + rest) =~= seq![without_return(line)] + lines(rest));
}

} // verus!

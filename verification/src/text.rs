//! Texts and byte strings: comparison, order and slicing.

use vstd::prelude::*;

verus! {

/// Whether two texts are equal.
pub fn same_text(a: &str, b: &str) -> (same: bool)
    ensures
        same == (a@ == b@),
{
    a.to_owned() == b.to_owned()
}

/// Whether two byte strings are equal.
pub fn same_bytes(a: &[u8], b: &[u8]) -> (same: bool)
    ensures
        same == (a@ == b@),
{
    if a.len() != b.len() {
        return false;
    }
    let mut i: usize = 0;
    while i < a.len()
        invariant
            i <= a.len(),
            a@.len() == b@.len(),
            forall|j: int| 0 <= j < i ==> a@[j] == b@[j],
        decreases a.len() - i,
    {
        if a[i] != b[i] {
            return false;
        }
        i += 1;
    }
    assert(a@ =~= b@);
    true
}

/// Whether two 32-octet hashes are equal.
pub fn same_hash(a: &[u8; 32], b: &[u8; 32]) -> (same: bool)
    ensures
        same == (a@ == b@),
{
    same_bytes(a.as_slice(), b.as_slice())
}

/// The bytes of a slice, owned.
pub fn copy_bytes(bytes: &[u8]) -> (copy: Vec<u8>)
    ensures
        copy@ == bytes@,
{
    vstd::slice::slice_to_vec(bytes)
}

/// A list of byte strings as sequences.
pub open spec fn bytes_view(list: Seq<Vec<u8>>) -> Seq<Seq<u8>> {
    Seq::new(list.len(), |i: int| list[i]@)
}

/// A list of texts as character sequences.
pub open spec fn texts_view(list: Seq<String>) -> Seq<Seq<char>> {
    Seq::new(list.len(), |i: int| list[i]@)
}

/// The characters of a text.
pub fn chars_of(text: &str) -> (chars: Vec<char>)
    ensures
        chars@ == text@,
{
    let mut chars: Vec<char> = Vec::new();
    for c in it: text.chars()
        invariant
            it.seq() == text@,
            chars@ == it.seq().take(it.index() as int),
    {
        chars.push(c);
    }
    chars
}

/// `prefix` followed by `rest`.
pub fn join(prefix: &str, rest: &str) -> (joined: String)
    ensures
        joined@ == prefix@ + rest@,
{
    let joined: String = prefix.to_owned();
    joined.concat(rest)
}

/// Whether `text` begins with `prefix`.
pub open spec fn starts_with(text: Seq<char>, prefix: Seq<char>) -> bool {
    prefix.len() <= text.len() && text.take(prefix.len() as int) == prefix
}

/// What follows `prefix` in `text`, where `text` begins with it.
pub fn strip_prefix<'a>(text: &'a str, prefix: &str) -> (rest: Option<&'a str>)
    ensures
        match rest {
            Some(r) => starts_with(text@, prefix@) && r@ == text@.skip(prefix@.len() as int),
            None => !starts_with(text@, prefix@),
        },
{
    let width: usize = prefix.unicode_len();
    let length: usize = text.unicode_len();
    if length < width {
        return None;
    }
    let head = text.substring_char(0, width);
    assert(head@ == text@.take(prefix@.len() as int));
    if same_text(head, prefix) {
        let rest = text.substring_char(width, length);
        assert(rest@ == text@.skip(prefix@.len() as int));
        Some(rest)
    } else {
        None
    }
}

/// Whether `a` and `b` first differ at `at`, `a` coming first there.
pub open spec fn differs_at(a: Seq<char>, b: Seq<char>, at: int) -> bool {
    &&& 0 <= at <= a.len()
    &&& at < b.len()
    &&& a.take(at) == b.take(at)
    &&& at < a.len() ==> a[at] < b[at]
}

/// Strict lexicographic order by code point.
pub open spec fn text_before(a: Seq<char>, b: Seq<char>) -> bool {
    exists|at: int| differs_at(a, b, at)
}

/// Exactly one of `a < b`, `a == b` and `b < a` holds.
pub proof fn text_order_is_total(a: Seq<char>, b: Seq<char>)
    ensures
        a == b || text_before(a, b) || text_before(b, a),
        !(text_before(a, b) && text_before(b, a)),
        !text_before(a, a),
{
    if text_before(a, b) && text_before(b, a) {
        let i = choose|at: int| differs_at(a, b, at);
        let j = choose|at: int| differs_at(b, a, at);
        if i < j {
            assert(b.take(j)[i] == a.take(j)[i]);
        } else if j < i {
            assert(b.take(i)[j] == a.take(i)[j]);
        }
    }
    if text_before(a, a) {
        let i = choose|at: int| differs_at(a, a, at);
    }
    assert(a.take(0) == b.take(0));
    first_difference(a, b, 0);
}

/// From a common prefix of length `from`, the texts are equal or first differ further on.
proof fn first_difference(a: Seq<char>, b: Seq<char>, from: int)
    requires
        0 <= from <= a.len(),
        from <= b.len(),
        a.take(from) == b.take(from),
    ensures
        a == b || text_before(a, b) || text_before(b, a),
    decreases a.len() - from,
{
    if from < a.len() && from < b.len() {
        if a[from] == b[from] {
            assert(a.take(from + 1) == a.take(from).push(a[from]));
            assert(b.take(from + 1) == b.take(from).push(b[from]));
            first_difference(a, b, from + 1);
        } else if a[from] < b[from] {
            assert(differs_at(a, b, from));
        } else {
            assert(differs_at(b, a, from));
        }
    } else if from < b.len() {
        assert(differs_at(a, b, from));
    } else if from < a.len() {
        assert(differs_at(b, a, from));
    } else {
        assert(a.take(from) == a);
        assert(b.take(from) == b);
    }
}

/// The order is transitive.
pub proof fn text_order_is_transitive(a: Seq<char>, b: Seq<char>, c: Seq<char>)
    requires
        text_before(a, b),
        text_before(b, c),
    ensures
        text_before(a, c),
{
    let i = choose|at: int| differs_at(a, b, at);
    let j = choose|at: int| differs_at(b, c, at);
    let k = if i < j { i } else { j };
    assert(a.take(k) == a.take(i).take(k));
    assert(b.take(k) == b.take(i).take(k));
    assert(b.take(k) == b.take(j).take(k));
    assert(c.take(k) == c.take(j).take(k));
    if i < j {
        assert(b.take(j)[i] == c.take(j)[i]);
    } else if j < i {
        assert(b.take(i)[j] == a.take(i)[j]);
    }
    assert(differs_at(a, c, k));
}

/// Whether `a` comes strictly before `b`.
pub fn is_text_before(a: &str, b: &str) -> (before: bool)
    ensures
        before == text_before(a@, b@),
{
    let x: Vec<char> = chars_of(a);
    let y: Vec<char> = chars_of(b);
    proof {
        text_order_is_total(a@, b@);
    }
    let mut i: usize = 0;
    while i < x.len() && i < y.len()
        invariant
            x@ == a@,
            y@ == b@,
            i <= x@.len(),
            i <= y@.len(),
            a@.take(i as int) == b@.take(i as int),
            !(text_before(a@, b@) && text_before(b@, a@)),
        decreases x.len() - i,
    {
        if x[i] != y[i] {
            if x[i] < y[i] {
                assert(differs_at(a@, b@, i as int));
                return true;
            }
            assert(differs_at(b@, a@, i as int));
            return false;
        }
        assert(a@.take(i + 1) == a@.take(i as int).push(a@[i as int]));
        assert(b@.take(i + 1) == b@.take(i as int).push(b@[i as int]));
        i += 1;
    }
    if i < y.len() {
        assert(differs_at(a@, b@, i as int));
        true
    } else {
        if i < x.len() {
            assert(differs_at(b@, a@, i as int));
        } else {
            assert(a@.take(i as int) == a@);
            assert(b@.take(i as int) == b@);
        }
        false
    }
}

/// Two texts are ordered by the first place at which they differ: by the code points there, and
/// a text that ends there comes first.
pub proof fn texts_are_ordered_by_their_first_difference(a: Seq<char>, b: Seq<char>, at: int)
    requires
        0 <= at <= a.len(),
        at <= b.len(),
        forall|j: int| 0 <= j < at ==> #[trigger] a[j] == b[j],
    ensures
        at < a.len() && at < b.len() && a[at] < b[at] ==> text_before(a, b) && !text_before(b, a),
        at < a.len() && at < b.len() && b[at] < a[at] ==> text_before(b, a) && !text_before(a, b),
        at == a.len() < b.len() ==> text_before(a, b) && !text_before(b, a),
        at == b.len() < a.len() ==> text_before(b, a) && !text_before(a, b),
        at == a.len() == b.len() ==> !text_before(a, b) && !text_before(b, a),
{
    text_order_is_total(a, b);
    assert(a.take(at) =~= b.take(at));
    if at < b.len() && (at == a.len() || a[at] < b[at]) {
        assert(differs_at(a, b, at));
    }
    if at < a.len() && (at == b.len() || b[at] < a[at]) {
        assert(differs_at(b, a, at));
    }
    if at == a.len() == b.len() {
        assert(a =~= b);
    }
}

} // verus!

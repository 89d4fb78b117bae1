//! Index documents: a flat JSON array with one object per tensor. Reading one gives
//! exactly the tensors that it lists.

use vstd::prelude::*;

use crate::text::{
    all_digits, digits_value, find_char, find_char_is_first, find_text, find_text_is_first,
    in_class, is_space, lead, lemma_trail_bound, occurs_at, reads_as_usize, split,
    trail, trim, trim_start, unsigned_digits, Class,
};
use crate::weights::{
    after_char, after_key, before_char, load_object, load_objects, load_outcome, load_text, quoted,
    read_items, str_field, usize_field, usize_list_field, IndexView, ListReading, Loading,
    TensorView,
};

verus! {

// ---------------------------------------------------------------------------
// Documents
// ---------------------------------------------------------------------------

/// The keys of an object.
pub ghost enum Key {
    Name,
    Shape,
    Offset,
    Nbytes,
}

pub open spec fn key_text(k: Key) -> Seq<char> {
    match k {
        Key::Name => "name"@,
        Key::Shape => "shape"@,
        Key::Offset => "offset"@,
        Key::Nbytes => "nbytes"@,
    }
}

/// Whether a text is white space.
pub open spec fn blank(s: Seq<char>) -> bool {
    forall|i: int| 0 <= i < s.len() ==> is_space(#[trigger] s[i])
}

/// One field of an object, with the white space that may stand in it.
pub ghost struct FieldText {
    pub key: Key,
    pub before_key: Seq<char>,
    pub after_key: Seq<char>,
    pub before_value: Seq<char>,
    pub value: Seq<char>,
    pub after_value: Seq<char>,
}

impl FieldText {
    /// What stands behind the key.
    pub open spec fn behind(self) -> Seq<char> {
        self.after_key + seq![':'] + self.before_value + self.value + self.after_value
    }

    pub open spec fn text(self) -> Seq<char> {
        self.before_key + quoted(key_text(self.key)) + self.behind()
    }
}

/// Whether a text writes a number in decimal digits.
pub open spec fn writes_number(s: Seq<char>, n: usize) -> bool {
    s.len() > 0 && all_digits(s) && digits_value(s) == n
}

/// Whether a text writes a number with white space around it.
pub open spec fn writes_item(s: Seq<char>, n: usize) -> bool {
    exists|a: Seq<char>, d: Seq<char>, b: Seq<char>|
        #![trigger a + d + b]
        s == a + d + b && blank(a) && blank(b) && writes_number(d, n)
}

/// Texts with commas between them.
pub open spec fn joined(items: Seq<Seq<char>>) -> Seq<char>
    decreases items.len(),
{
    if items.len() == 0 {
        Seq::empty()
    } else if items.len() == 1 {
        items[0]
    } else {
        items[0] + seq![','] + joined(items.skip(1))
    }
}

/// Whether `items` write the numbers one by one.
pub open spec fn writes_items(items: Seq<Seq<char>>, shape: Seq<usize>) -> bool {
    &&& items.len() == shape.len()
    &&& forall|i: int| 0 <= i < items.len() ==> writes_item(#[trigger] items[i], shape[i])
}

/// Whether a text writes a list of numbers.
pub open spec fn writes_list(s: Seq<char>, shape: Seq<usize>) -> bool {
    if shape.len() == 0 {
        exists|inner: Seq<char>| #[trigger] blank(inner) && s == seq!['['] + inner + seq![']']
    } else {
        exists|items: Seq<Seq<char>>| #[trigger]
            writes_items(items, shape) && s == seq!['['] + joined(items) + seq![']']
    }
}

/// Whether a text writes the value that a tensor has under a key.
pub open spec fn writes_value(s: Seq<char>, k: Key, t: TensorView) -> bool {
    match k {
        Key::Name => s == quoted(t.name),
        Key::Shape => writes_list(s, t.shape),
        Key::Offset => writes_number(s, t.offset),
        Key::Nbytes => writes_number(s, t.nbytes),
    }
}

/// Whether a field belongs to the object of a tensor.
pub open spec fn writes_field(f: FieldText, t: TensorView) -> bool {
    &&& blank(f.before_key)
    &&& blank(f.after_key)
    &&& blank(f.before_value)
    &&& blank(f.after_value)
    &&& writes_value(f.value, f.key, t)
}

/// The inside of an object: its fields with commas between them.
pub open spec fn object_text(fs: Seq<FieldText>) -> Seq<char>
    decreases fs.len(),
{
    if fs.len() == 0 {
        Seq::empty()
    } else if fs.len() == 1 {
        fs[0].text()
    } else {
        fs[0].text() + seq![','] + object_text(fs.skip(1))
    }
}

/// Whether the fields make up the object of a tensor: each key once, in any order.
pub open spec fn writes_object(fs: Seq<FieldText>, t: TensorView) -> bool {
    &&& fs.len() == 4
    &&& forall|i: int| 0 <= i < fs.len() ==> writes_field(#[trigger] fs[i], t)
    &&& forall|i: int, j: int|
        0 <= i < j < fs.len() ==> (#[trigger] fs[i]).key != (#[trigger] fs[j]).key
}

/// Whether a text is one character with white space around it.
pub open spec fn alone(s: Seq<char>, c: char) -> bool {
    exists|a: Seq<char>, b: Seq<char>|
        #![trigger a + seq![c] + b]
        blank(a) && blank(b) && s == a + seq![c] + b
}

/// A document: what stands before the first object, the objects, and what stands
/// behind each.
pub ghost struct DocumentText {
    pub head: Seq<char>,
    pub objects: Seq<Seq<FieldText>>,
    pub behind: Seq<Seq<char>>,
}

/// The objects with what stands behind them.
pub open spec fn objects_text(objects: Seq<Seq<FieldText>>, behind: Seq<Seq<char>>) -> Seq<char>
    decreases objects.len(),
{
    if objects.len() == 0 {
        Seq::empty()
    } else {
        seq!['{'] + object_text(objects[0]) + seq!['}'] + behind[0] + objects_text(
            objects.skip(1),
            behind.skip(1),
        )
    }
}

impl DocumentText {
    pub open spec fn text(self) -> Seq<char> {
        self.head + objects_text(self.objects, self.behind)
    }

    /// Whether the document is an array of the objects of the tensors.
    pub open spec fn lists(self, ts: Seq<TensorView>) -> bool {
        &&& alone(self.head, '[')
        &&& self.objects.len() == ts.len()
        &&& self.behind.len() == ts.len()
        &&& forall|i: int| 0 <= i < ts.len() ==> writes_object(#[trigger] self.objects[i], ts[i])
        &&& forall|i: int|
            0 <= i < ts.len() ==> alone(
                #[trigger] self.behind[i],
                if i == ts.len() - 1 {
                    ']'
                } else {
                    ','
                },
            )
    }
}

/// Whether a name has only letters, digits, underscores and dots, and is no key.
pub open spec fn plain_name(n: Seq<char>) -> bool {
    &&& forall|i: int| 0 <= i < n.len() ==> plain_char(#[trigger] n[i])
    &&& forall|k: Key| n != #[trigger] key_text(k)
}

pub open spec fn plain_char(c: char) -> bool {
    'a' <= c <= 'z' || 'A' <= c <= 'Z' || '0' <= c <= '9' || c == '_' || c == '.'
}

// ---------------------------------------------------------------------------
// Searching
// ---------------------------------------------------------------------------

/// Whether `c` does not occur in `s`.
pub open spec fn without(s: Seq<char>, c: char) -> bool {
    forall|i: int| 0 <= i < s.len() ==> #[trigger] s[i] != c
}

/// A character that the text in front does not hold is found at its end.
proof fn lemma_char_behind(a: Seq<char>, c: char, s: Seq<char>)
    requires
        without(a, c),
    ensures
        find_char(a + seq![c] + s, c, 0) == Some(a.len() as int),
        after_char(a + seq![c] + s, c) == Some(s),
        before_char(a + seq![c] + s, c) == Some(a),
{
    let t = a + seq![c] + s;
    find_char_is_first(t, c, 0);
    assert(t[a.len() as int] == c);
    if let Some(i) = find_char(t, c, 0) {
        if i < a.len() {
            assert(t[i] == a[i]);
        }
    }
    assert(t.skip(a.len() as int + 1) =~= s);
    assert(t.take(a.len() as int) =~= a);
}

/// Where a pattern does not begin in the text in front, it is found where it is found
/// without that text.
proof fn lemma_find_behind(a: Seq<char>, s: Seq<char>, pat: Seq<char>)
    requires
        forall|i: int| 0 <= i < a.len() ==> !occurs_at(a + s, pat, i),
    ensures
        match find_text(s, pat, 0) {
            Some(j) => find_text(a + s, pat, 0) == Some(a.len() + j),
            None => find_text(a + s, pat, 0) is None,
        },
{
    let t = a + s;
    find_text_is_first(s, pat, 0);
    find_text_is_first(t, pat, 0);
    let n = a.len() as int;
    assert forall|j: int| 0 <= j implies #[trigger] occurs_at(s, pat, j) == occurs_at(
        t,
        pat,
        n + j,
    ) by {
        if j + pat.len() <= s.len() {
            assert(s.subrange(j, j + pat.len()) =~= t.subrange(n + j, n + j + pat.len()));
        }
    }
    match (find_text(s, pat, 0), find_text(t, pat, 0)) {
        (Some(j), Some(i)) => {
            assert(occurs_at(t, pat, n + j));
            assert(i >= n);
            assert(occurs_at(s, pat, i - n));
        },
        (None, Some(i)) => {
            assert(i >= n);
            assert(occurs_at(s, pat, i - n));
        },
        (Some(j), None) => {
            assert(occurs_at(t, pat, n + j));
        },
        (None, None) => {},
    }
}

/// Text without quotes in front of a key does not matter.
proof fn lemma_key_behind(a: Seq<char>, s: Seq<char>, key: Seq<char>)
    requires
        without(a, '"'),
    ensures
        after_key(a + s, key) == after_key(s, key),
{
    let pat = quoted(key);
    let t = a + s;
    assert(pat[0] == '"');
    assert forall|i: int| 0 <= i < a.len() implies !occurs_at(t, pat, i) by {
        if occurs_at(t, pat, i) {
            assert(t.subrange(i, i + pat.len())[0] == t[i]);
            assert(t[i] == a[i]);
        }
    }
    lemma_find_behind(a, s, pat);
    if let Some(j) = find_text(s, pat, 0) {
        find_text_is_first(s, pat, 0);
        assert(t.skip(a.len() + j + pat.len()) =~= s.skip(j + pat.len()));
    }
}

/// A quote and text that is not the key are passed over up to the next quote.
proof fn lemma_key_past(b: Seq<char>, c: Seq<char>, key: Seq<char>)
    requires
        without(b, '"'),
        without(key, '"'),
        b != key,
    ensures
        after_key(seq!['"'] + b + (seq!['"'] + c), key) == after_key(seq!['"'] + c, key),
{
    let pat = quoted(key);
    let a = seq!['"'] + b;
    let s = seq!['"'] + c;
    let t = a + s;
    assert(pat[0] == '"');
    assert forall|i: int| 0 <= i < a.len() implies !occurs_at(t, pat, i) by {
        if occurs_at(t, pat, i) {
            let sub = t.subrange(i, i + pat.len());
            assert(sub[0] == t[i]);
            if i > 0 {
                assert(t[i] == b[i - 1]);
            } else {
                assert(sub == pat);
                let k = key.len() as int;
                let n = b.len() as int;
                assert(pat[k + 1] == '"' && sub[k + 1] == t[k + 1]);
                if k < n {
                    assert(t[k + 1] == b[k]);
                } else if k > n {
                    assert(sub[n + 1] == t[n + 1] && t[n + 1] == '"');
                    assert(pat[n + 1] == key[n]);
                } else {
                    assert forall|j: int| 0 <= j < k implies b[j] == key[j] by {
                        assert(sub[j + 1] == t[j + 1] && t[j + 1] == b[j]);
                        assert(pat[j + 1] == key[j]);
                    }
                    assert(b =~= key);
                }
            }
        }
    }
    lemma_find_behind(a, s, pat);
    if let Some(j) = find_text(s, pat, 0) {
        find_text_is_first(s, pat, 0);
        assert(t.skip(a.len() + j + pat.len()) =~= s.skip(j + pat.len()));
    }
}

/// The key itself is found.
proof fn lemma_key_here(c: Seq<char>, key: Seq<char>)
    ensures
        after_key(quoted(key) + c, key) == Some(c),
{
    let t = quoted(key) + c;
    assert(t.subrange(0, quoted(key).len() as int) =~= quoted(key));
    assert(occurs_at(t, quoted(key), 0));
    assert(t.skip(quoted(key).len() as int) =~= c);
}

// ---------------------------------------------------------------------------
// Fields
// ---------------------------------------------------------------------------

/// What a list of numbers is written with, between its brackets.
spec fn inner_char(c: char) -> bool {
    is_space(c) || '0' <= c <= '9' || c == ','
}

proof fn lemma_item_chars(s: Seq<char>, n: usize, i: int)
    requires
        writes_item(s, n),
        0 <= i < s.len(),
    ensures
        is_space(s[i]) || '0' <= s[i] <= '9',
{
    let (a, d, b) = choose|a: Seq<char>, d: Seq<char>, b: Seq<char>|
        #![trigger a + d + b]
        s == a + d + b && blank(a) && blank(b) && writes_number(d, n);
    if i < a.len() {
        assert(s[i] == a[i]);
    } else if i < a.len() + d.len() {
        assert(s[i] == d[i - a.len()]);
    } else {
        assert(s[i] == b[i - a.len() - d.len()]);
    }
}

proof fn lemma_joined_chars(items: Seq<Seq<char>>, shape: Seq<usize>)
    requires
        writes_items(items, shape),
    ensures
        forall|i: int| 0 <= i < joined(items).len() ==> inner_char(#[trigger] joined(items)[i]),
    decreases items.len(),
{
    if items.len() > 0 {
        assert forall|i: int| 0 <= i < items[0].len() implies inner_char(#[trigger] items[0][i]) by {
            lemma_item_chars(items[0], shape[0], i);
        }
        if items.len() > 1 {
            let rest = items.skip(1);
            assert forall|i: int| 0 <= i < rest.len() implies writes_item(
                #[trigger] rest[i],
                shape.skip(1)[i],
            ) by {
                assert(writes_item(items[i + 1], shape[i + 1]));
            }
            lemma_joined_chars(rest, shape.skip(1));
            let t = joined(items);
            assert forall|i: int| 0 <= i < t.len() implies inner_char(#[trigger] t[i]) by {
                if i < items[0].len() {
                    assert(t[i] == items[0][i]);
                } else if i > items[0].len() {
                    assert(t[i] == joined(rest)[i - items[0].len() - 1]);
                }
            }
        }
    }
}

/// The keys hold no punctuation, and no two are the same.
proof fn lemma_keys(k: Key, other: Key)
    ensures
        forall|i: int|
            0 <= i < key_text(k).len() ==> 'a' <= #[trigger] key_text(k)[i] <= 'z',
        k != other ==> key_text(k) != key_text(other),
{
    reveal_strlit("name");
    reveal_strlit("shape");
    reveal_strlit("offset");
    reveal_strlit("nbytes");
    assert("name"@.len() == 4 && "shape"@.len() == 5 && "offset"@.len() == 6 && "nbytes"@.len() == 6);
    assert("offset"@[0] == 'o' && "nbytes"@[0] == 'n');
    if key_text(k) == key_text(other) {
        assert(key_text(k)[0] == key_text(other)[0]);
    }
}

/// What the value of a field is written with.
proof fn lemma_value_chars(f: FieldText, t: TensorView)
    requires
        writes_field(f, t),
        plain_name(t.name),
    ensures
        without(f.value, '{'),
        without(f.value, '}'),
        !(f.key is Name) ==> without(f.value, '"'),
{
    let v = f.value;
    match f.key {
        Key::Name => {
            assert forall|i: int| 0 <= i < v.len() implies #[trigger] v[i] != '{' && v[i] != '}' by {
                if 0 < i < v.len() - 1 {
                    assert(v[i] == t.name[i - 1]);
                }
            }
        },
        Key::Shape => {
            if t.shape.len() == 0 {
                let inner = choose|inner: Seq<char>| #[trigger]
                    blank(inner) && v == seq!['['] + inner + seq![']'];
                assert forall|i: int| 0 <= i < v.len() implies #[trigger] v[i] != '{' && v[i] != '}'
                    && v[i] != '"' by {
                    if 0 < i < v.len() - 1 {
                        assert(v[i] == inner[i - 1]);
                    }
                }
            } else {
                let items = choose|items: Seq<Seq<char>>| #[trigger]
                    writes_items(items, t.shape) && v == seq!['['] + joined(items) + seq![']'];
                lemma_joined_chars(items, t.shape);
                assert forall|i: int| 0 <= i < v.len() implies #[trigger] v[i] != '{' && v[i] != '}'
                    && v[i] != '"' by {
                    if 0 < i < v.len() - 1 {
                        assert(v[i] == joined(items)[i - 1]);
                    }
                }
            }
        },
        _ => {},
    }
}

/// Neither a field nor an object holds a brace.
proof fn lemma_field_braces(f: FieldText, t: TensorView)
    requires
        writes_field(f, t),
        plain_name(t.name),
    ensures
        without(f.text(), '{'),
        without(f.text(), '}'),
{
    lemma_value_chars(f, t);
    lemma_keys(f.key, f.key);
    let k = quoted(key_text(f.key));
    assert(without(k, '{') && without(k, '}')) by {
        assert forall|i: int| 0 <= i < k.len() implies #[trigger] k[i] != '{' && k[i] != '}' by {
            if 0 < i < k.len() - 1 {
                assert(k[i] == key_text(f.key)[i - 1]);
            }
        }
    }
    lemma_without_all(f, k, '{');
    lemma_without_all(f, k, '}');
}

proof fn lemma_without_all(f: FieldText, k: Seq<char>, c: char)
    requires
        k == quoted(key_text(f.key)),
        without(k, c),
        without(f.value, c),
        blank(f.before_key),
        blank(f.after_key),
        blank(f.before_value),
        blank(f.after_value),
        !is_space(c),
        c != ':',
    ensures
        without(f.text(), c),
{
    lemma_without_sum(f.after_key, seq![':'], c);
    lemma_without_sum(f.after_key + seq![':'], f.before_value, c);
    lemma_without_sum(f.after_key + seq![':'] + f.before_value, f.value, c);
    lemma_without_sum(f.after_key + seq![':'] + f.before_value + f.value, f.after_value, c);
    lemma_without_sum(f.before_key, k, c);
    lemma_without_sum(f.before_key + k, f.behind(), c);
}

proof fn lemma_without_sum(a: Seq<char>, b: Seq<char>, c: char)
    requires
        without(a, c),
        without(b, c),
    ensures
        without(a + b, c),
{
    assert forall|i: int| 0 <= i < (a + b).len() implies #[trigger] (a + b)[i] != c by {
        if i < a.len() {
            assert((a + b)[i] == a[i]);
        } else {
            assert((a + b)[i] == b[i - a.len()]);
        }
    }
}

proof fn lemma_object_braces(fs: Seq<FieldText>, t: TensorView)
    requires
        forall|i: int| 0 <= i < fs.len() ==> writes_field(#[trigger] fs[i], t),
        plain_name(t.name),
    ensures
        without(object_text(fs), '}'),
        without(object_text(fs), '{'),
    decreases fs.len(),
{
    if fs.len() > 0 {
        lemma_field_braces(fs[0], t);
        if fs.len() > 1 {
            let rest = fs.skip(1);
            assert forall|i: int| 0 <= i < rest.len() implies writes_field(#[trigger] rest[i], t) by {
                assert(writes_field(fs[i + 1], t));
            }
            lemma_object_braces(rest, t);
            lemma_without_sum(fs[0].text(), seq![','], '}');
            lemma_without_sum(fs[0].text() + seq![','], object_text(rest), '}');
            lemma_without_sum(fs[0].text(), seq![','], '{');
            lemma_without_sum(fs[0].text() + seq![','], object_text(rest), '{');
        }
    }
}

/// A field of another key is passed over.
proof fn lemma_field_past(f: FieldText, t: TensorView, w: Seq<char>, c: Seq<char>, k: Key)
    requires
        writes_field(f, t),
        plain_name(t.name),
        f.key != k,
        blank(w),
    ensures
        after_key(f.text() + seq![','] + (w + (seq!['"'] + c)), key_text(k)) == after_key(
            w + (seq!['"'] + c),
            key_text(k),
        ),
{
    let key = key_text(k);
    let own = key_text(f.key);
    let q = seq!['"'];
    lemma_keys(k, f.key);
    lemma_keys(f.key, k);
    lemma_value_chars(f, t);
    assert(without(key, '"') && without(own, '"'));
    let rest = w + (q + c);
    let whole = f.text() + seq![','] + rest;
    lemma_key_behind(w, q + c, key);
    if f.key is Name {
        let b1 = f.after_key + seq![':'] + f.before_value;
        let b2 = f.after_value + seq![','] + w;
        lemma_without_sum(f.after_key, seq![':'], '"');
        lemma_without_sum(f.after_key + seq![':'], f.before_value, '"');
        lemma_without_sum(f.after_value, seq![','], '"');
        lemma_without_sum(f.after_value + seq![','], w, '"');
        let s3 = q + b2 + (q + c);
        let s2 = q + t.name + s3;
        let s1 = q + b1 + s2;
        let s0 = q + own + s1;
        assert(whole =~= f.before_key + s0);
        lemma_key_behind(f.before_key, s0, key);
        let d1 = b1 + s2;
        assert(s1 =~= q + d1);
        lemma_key_past(own, d1, key);
        assert(b1[f.after_key.len() as int] == ':');
        let d2 = t.name + s3;
        assert(s2 =~= q + d2);
        assert(b1 != key) by {
            if b1 == key {
                assert('a' <= key[f.after_key.len() as int] <= 'z');
            }
        }
        lemma_key_past(b1, d2, key);
        let d3 = b2 + (q + c);
        assert(s3 =~= q + d3);
        assert(t.name != key);
        lemma_key_past(t.name, d3, key);
        assert(b2[f.after_value.len() as int] == ',');
        assert(b2 != key) by {
            if b2 == key {
                assert('a' <= key[f.after_value.len() as int] <= 'z');
            }
        }
        lemma_key_past(b2, c, key);
    } else {
        let b = f.behind() + seq![','] + w;
        lemma_without_sum(f.after_key, seq![':'], '"');
        lemma_without_sum(f.after_key + seq![':'], f.before_value, '"');
        lemma_without_sum(f.after_key + seq![':'] + f.before_value, f.value, '"');
        lemma_without_sum(
            f.after_key + seq![':'] + f.before_value + f.value,
            f.after_value,
            '"',
        );
        lemma_without_sum(f.behind(), seq![','], '"');
        lemma_without_sum(f.behind() + seq![','], w, '"');
        let s1 = q + b + (q + c);
        let s0 = q + own + s1;
        assert(whole =~= f.before_key + s0);
        lemma_key_behind(f.before_key, s0, key);
        let d1 = b + (q + c);
        assert(s1 =~= q + d1);
        lemma_key_past(own, d1, key);
        assert(b[f.after_key.len() as int] == ':');
        assert(b != key) by {
            if b == key {
                assert('a' <= key[f.after_key.len() as int] <= 'z');
            }
        }
        lemma_key_past(b, c, key);
    }
}

/// In an object, what follows a key is the rest of its field, and then a comma or
/// nothing.
proof fn lemma_object_key(fs: Seq<FieldText>, t: TensorView, j: int) -> (tail: Seq<char>)
    requires
        0 <= j < fs.len(),
        forall|i: int| 0 <= i < fs.len() ==> writes_field(#[trigger] fs[i], t),
        forall|i: int| 0 <= i < j ==> (#[trigger] fs[i]).key != fs[j].key,
        plain_name(t.name),
    ensures
        after_key(object_text(fs), key_text(fs[j].key)) == Some(fs[j].behind() + tail),
        tail.len() == 0 || tail[0] == ',',
    decreases fs.len(),
{
    let f = fs[0];
    let key = key_text(fs[j].key);
    if j == 0 {
        let tail = if fs.len() == 1 {
            Seq::empty()
        } else {
            seq![','] + object_text(fs.skip(1))
        };
        let s = quoted(key) + (f.behind() + tail);
        assert(object_text(fs) =~= f.before_key + s);
        lemma_key_behind(f.before_key, s, key);
        lemma_key_here(f.behind() + tail, key);
        tail
    } else {
        let rest = fs.skip(1);
        assert forall|i: int| 0 <= i < rest.len() implies writes_field(#[trigger] rest[i], t) by {
            assert(writes_field(fs[i + 1], t));
        }
        assert forall|i: int| 0 <= i < j - 1 implies (#[trigger] rest[i]).key != rest[j - 1].key by {
            assert(fs[i + 1].key != fs[j].key);
        }
        let tail = lemma_object_key(rest, t, j - 1);
        let g = rest[0];
        let text = object_text(rest);
        let c = text.skip(g.before_key.len() as int + 1);
        assert(text =~= g.before_key + (seq!['"'] + c)) by {
            assert(text[g.before_key.len() as int] == '"');
            assert(text.take(g.before_key.len() as int) =~= g.before_key);
        }
        lemma_field_past(f, t, g.before_key, c, fs[j].key);
        tail
    }
}

// ---------------------------------------------------------------------------
// Values
// ---------------------------------------------------------------------------

/// White space in front is passed over as far as it reaches.
proof fn lemma_lead(w: Seq<char>, s: Seq<char>, k: Class)
    requires
        forall|i: int| 0 <= i < w.len() ==> in_class(k, #[trigger] w[i]),
        s.len() == 0 || !in_class(k, s[0]),
    ensures
        lead(w + s, k) == w.len(),
    decreases w.len(),
{
    if w.len() > 0 {
        assert((w + s)[0] == w[0]);
        assert((w + s).skip(1) =~= w.skip(1) + s);
        assert forall|i: int| 0 <= i < w.skip(1).len() implies in_class(k, #[trigger] w.skip(1)[i]) by {
            assert(in_class(k, w[i + 1]));
        }
        lemma_lead(w.skip(1), s, k);
    } else {
        assert(w + s =~= s);
    }
}

proof fn lemma_trail(s: Seq<char>, w: Seq<char>)
    requires
        blank(w),
        s.len() == 0 || !is_space(s.last()),
    ensures
        trail(s + w, Class::Space) == w.len(),
    decreases w.len(),
{
    if w.len() > 0 {
        assert((s + w).last() == w.last());
        assert((s + w).drop_last() =~= s + w.drop_last());
        lemma_trail(s, w.drop_last());
    } else {
        assert(s + w =~= s);
    }
}

/// A number with white space around it is trimmed to its digits.
proof fn lemma_trim(a: Seq<char>, d: Seq<char>, b: Seq<char>)
    requires
        blank(a),
        blank(b),
        d.len() > 0,
        all_digits(d),
    ensures
        trim(a + d + b) == d,
{
    assert(a + d + b =~= a + (d + b));
    assert((d + b)[0] == d[0]);
    lemma_lead(a, d + b, Class::Space);
    assert(trim_start(a + d + b) =~= d + b);
    lemma_trail(d, b);
    assert(trim(a + d + b) =~= d);
}

/// A run of digits reads as the number that it writes.
proof fn lemma_number(d: Seq<char>, n: usize)
    requires
        writes_number(d, n),
    ensures
        unsigned_digits(d) == d,
        reads_as_usize(d),
        digits_value(d) as usize == n,
{
    assert('0' <= d[0] <= '9');
}

/// Items with commas between them are split at those.
proof fn lemma_split_items(items: Seq<Seq<char>>, shape: Seq<usize>)
    requires
        writes_items(items, shape),
        items.len() > 0,
    ensures
        split(joined(items), ',') == items,
        read_items(items) == Ok::<Seq<usize>, Seq<char>>(shape),
    decreases items.len(),
{
    lemma_items_read(items, shape);
    let first = items[0];
    assert(without(first, ',')) by {
        assert forall|i: int| 0 <= i < first.len() implies #[trigger] first[i] != ',' by {
            lemma_item_chars(first, shape[0], i);
        }
    }
    if items.len() == 1 {
        find_char_is_first(first, ',', 0);
        assert(split(first, ',') =~= items);
    } else {
        let rest = items.skip(1);
        assert forall|i: int| 0 <= i < rest.len() implies writes_item(
            #[trigger] rest[i],
            shape.skip(1)[i],
        ) by {
            assert(writes_item(items[i + 1], shape[i + 1]));
        }
        lemma_split_items(rest, shape.skip(1));
        lemma_char_behind(first, ',', joined(rest));
        let t = joined(items);
        assert(t == first + seq![','] + joined(rest));
        assert(t.take(first.len() as int) =~= first);
        assert(t.skip(first.len() as int + 1) =~= joined(rest));
        assert(split(t, ',') =~= seq![first] + rest);
        assert(seq![first] + rest =~= items);
    }
}

proof fn lemma_items_read(items: Seq<Seq<char>>, shape: Seq<usize>)
    requires
        writes_items(items, shape),
    ensures
        read_items(items) == Ok::<Seq<usize>, Seq<char>>(shape),
    decreases items.len(),
{
    if items.len() == 0 {
        assert(shape =~= Seq::empty());
    } else {
        let n = items.len() - 1;
        assert forall|i: int| 0 <= i < n implies writes_item(
            #[trigger] items.drop_last()[i],
            shape.drop_last()[i],
        ) by {
            assert(writes_item(items[i], shape[i]));
        }
        lemma_items_read(items.drop_last(), shape.drop_last());
        let last = items[n];
        assert(writes_item(last, shape[n]));
        let (a, d, b) = choose|a: Seq<char>, d: Seq<char>, b: Seq<char>|
            #![trigger a + d + b]
            last == a + d + b && blank(a) && blank(b) && writes_number(d, shape[n]);
        lemma_trim(a, d, b);
        lemma_number(d, shape[n]);
        assert(shape.drop_last().push(shape[n]) =~= shape);
    }
}

/// A name is read as it is written.
proof fn lemma_name_read(f: FieldText, t: TensorView, obj: Seq<char>, tail: Seq<char>)
    requires
        writes_field(f, t),
        plain_name(t.name),
        f.key is Name,
        after_key(obj, "name"@) == Some(f.behind() + tail),
    ensures
        str_field(obj, "name"@) == Some(t.name),
{
    let a = f.after_key + seq![':'] + f.before_value;
    lemma_without_sum(f.after_key, seq![':'], '"');
    lemma_without_sum(f.after_key + seq![':'], f.before_value, '"');
    let c = f.after_value + tail;
    let s = t.name + seq!['"'] + c;
    assert(f.behind() + tail =~= a + seq!['"'] + s);
    lemma_char_behind(a, '"', s);
    lemma_char_behind(t.name, '"', c);
}

/// A number is read as it is written.
proof fn lemma_number_read(
    f: FieldText,
    t: TensorView,
    n: usize,
    obj: Seq<char>,
    tail: Seq<char>,
)
    requires
        writes_field(f, t),
        writes_number(f.value, n),
        after_key(obj, key_text(f.key)) == Some(f.behind() + tail),
        tail.len() == 0 || tail[0] == ',',
    ensures
        usize_field(obj, key_text(f.key)) == Some(n),
{
    let d = f.value;
    let end = f.after_value + tail;
    let s = f.before_value + (d + end);
    assert(f.behind() + tail =~= f.after_key + seq![':'] + s);
    lemma_char_behind(f.after_key, ':', s);
    assert((d + end)[0] == d[0]);
    assert('0' <= d[0] <= '9');
    lemma_lead(f.before_value, d + end, Class::Space);
    assert(trim_start(s) =~= d + end);
    assert(end.len() == 0 || !in_class(Class::Digit, end[0])) by {
        if f.after_value.len() > 0 {
            assert(end[0] == f.after_value[0]);
        } else {
            assert(end =~= tail);
        }
    }
    lemma_lead(d, end, Class::Digit);
    assert((d + end).take(d.len() as int) =~= d);
    lemma_number(d, n);
}

/// A list is read as it is written.
proof fn lemma_list_read(f: FieldText, t: TensorView, obj: Seq<char>, tail: Seq<char>)
    requires
        writes_field(f, t),
        f.key is Shape,
        after_key(obj, "shape"@) == Some(f.behind() + tail),
    ensures
        usize_list_field(obj, "shape"@) == ListReading::Numbers(t.shape),
{
    let rest = f.behind() + tail;
    let a = f.after_key + seq![':'] + f.before_value;
    let c = f.after_value + tail;
    let inner = if t.shape.len() == 0 {
        choose|inner: Seq<char>| #[trigger]
            blank(inner) && f.value == seq!['['] + inner + seq![']']
    } else {
        joined(
            choose|items: Seq<Seq<char>>| #[trigger]
                writes_items(items, t.shape) && f.value == seq!['['] + joined(items) + seq![']'],
        )
    };
    lemma_without_sum(f.after_key, seq![':'], '[');
    lemma_without_sum(f.after_key + seq![':'], f.before_value, '[');
    lemma_without_sum(f.after_key, seq![':'], ']');
    lemma_without_sum(f.after_key + seq![':'], f.before_value, ']');
    if t.shape.len() > 0 {
        let items = choose|items: Seq<Seq<char>>| #[trigger]
            writes_items(items, t.shape) && f.value == seq!['['] + joined(items) + seq![']'];
        lemma_joined_chars(items, t.shape);
    }
    assert(without(inner, ']'));
    let s = inner + seq![']'] + c;
    assert(rest =~= a + seq!['['] + s);
    lemma_char_behind(a, '[', s);
    let b = a + seq!['['] + inner;
    lemma_without_sum(a, seq!['['], ']');
    lemma_without_sum(a + seq!['['], inner, ']');
    assert(rest =~= b + seq![']'] + c);
    lemma_char_behind(b, ']', c);
    let body = rest.subrange(a.len() as int + 1, b.len() as int);
    assert(body =~= inner);
    if t.shape.len() == 0 {
        assert(inner + Seq::<char>::empty() =~= inner);
        lemma_lead(inner, Seq::empty(), Class::Space);
        assert(trim_start(inner).len() == 0);
        lemma_trail_bound(trim_start(inner), Class::Space);
        assert(trim(inner).len() == 0);
        assert(t.shape =~= Seq::empty());
    } else {
        let items = choose|items: Seq<Seq<char>>| #[trigger]
            writes_items(items, t.shape) && f.value == seq!['['] + joined(items) + seq![']'];
        lemma_split_items(items, t.shape);
        lemma_not_blank(items, t.shape);
    }
}

/// A list that is not empty is not only white space.
proof fn lemma_not_blank(items: Seq<Seq<char>>, shape: Seq<usize>)
    requires
        writes_items(items, shape),
        items.len() > 0,
    ensures
        trim(joined(items)).len() > 0,
{
    let first = items[0];
    assert(writes_item(first, shape[0]));
    let (a, d, b) = choose|a: Seq<char>, d: Seq<char>, b: Seq<char>|
        #![trigger a + d + b]
        first == a + d + b && blank(a) && blank(b) && writes_number(d, shape[0]);
    let j = joined(items);
    let s = j.skip(a.len() as int);
    assert(j =~= a + s);
    assert(s[0] == d[0]);
    assert('0' <= d[0] <= '9');
    lemma_lead(a, s, Class::Space);
    assert(trim_start(j) =~= s);
    lemma_trail_short(s, 0);
}

/// White space at the end does not reach past a character that is none.
proof fn lemma_trail_short(s: Seq<char>, i: int)
    requires
        0 <= i < s.len(),
        !is_space(s[i]),
    ensures
        trail(s, Class::Space) <= s.len() - 1 - i,
    decreases s.len(),
{
    if is_space(s.last()) {
        lemma_trail_short(s.drop_last(), i);
    }
}

// ---------------------------------------------------------------------------
// Objects and documents
// ---------------------------------------------------------------------------

/// Four different keys are all of them.
proof fn lemma_key_present(fs: Seq<FieldText>, k: Key) -> (j: int)
    requires
        fs.len() == 4,
        forall|a: int, b: int|
            0 <= a < b < fs.len() ==> (#[trigger] fs[a]).key != (#[trigger] fs[b]).key,
    ensures
        0 <= j < 4,
        fs[j].key == k,
{
    let (a, b, c, d) = (fs[0].key, fs[1].key, fs[2].key, fs[3].key);
    if a == k {
        0
    } else if b == k {
        1
    } else if c == k {
        2
    } else {
        3
    }
}

/// An object is read as the tensor that it writes.
proof fn lemma_object_read(fs: Seq<FieldText>, t: TensorView, more: Seq<char>, ix: IndexView)
    requires
        writes_object(fs, t),
        plain_name(t.name),
    ensures
        load_object(ix, object_text(fs) + seq!['}'] + more) == Loading::Going(ix.with(t)),
{
    let obj = object_text(fs);
    lemma_object_braces(fs, t);
    lemma_char_behind(obj, '}', more);
    let n = lemma_key_present(fs, Key::Name);
    let s = lemma_key_present(fs, Key::Shape);
    let o = lemma_key_present(fs, Key::Offset);
    let b = lemma_key_present(fs, Key::Nbytes);
    let n_tail = lemma_object_key(fs, t, n);
    let s_tail = lemma_object_key(fs, t, s);
    let o_tail = lemma_object_key(fs, t, o);
    let b_tail = lemma_object_key(fs, t, b);
    lemma_name_read(fs[n], t, obj, n_tail);
    lemma_list_read(fs[s], t, obj, s_tail);
    lemma_number_read(fs[o], t, t.offset, obj, o_tail);
    lemma_number_read(fs[b], t, t.nbytes, obj, b_tail);
    assert(t == TensorView { name: t.name, shape: t.shape, offset: t.offset, nbytes: t.nbytes });
}

/// The index of tensors that come one after the other.
pub open spec fn listing(ts: Seq<TensorView>) -> IndexView
    decreases ts.len(),
{
    if ts.len() == 0 {
        IndexView::empty()
    } else {
        listing(ts.drop_last()).with(ts.last())
    }
}

/// What `load_text` reads of a document after its first braces: one piece an object.
spec fn pieces(objects: Seq<Seq<FieldText>>, behind: Seq<Seq<char>>) -> Seq<Seq<char>> {
    Seq::new(
        objects.len(),
        |i: int| object_text(objects[i]) + seq!['}'] + behind[i],
    )
}

proof fn lemma_alone_without(s: Seq<char>, c: char, x: char)
    requires
        alone(s, c),
        c != x,
        !is_space(x),
    ensures
        without(s, x),
{
    let (a, b) = choose|a: Seq<char>, b: Seq<char>|
        #![trigger a + seq![c] + b]
        blank(a) && blank(b) && s == a + seq![c] + b;
    lemma_without_sum(a, seq![c], x);
    lemma_without_sum(a + seq![c], b, x);
}

/// A document is split at its opening braces into one piece an object.
proof fn lemma_pieces(
    head: Seq<char>,
    objects: Seq<Seq<FieldText>>,
    behind: Seq<Seq<char>>,
    ts: Seq<TensorView>,
)
    requires
        without(head, '{'),
        objects.len() == ts.len(),
        behind.len() == ts.len(),
        forall|i: int| 0 <= i < ts.len() ==> writes_object(#[trigger] objects[i], ts[i]),
        forall|i: int| 0 <= i < ts.len() ==> plain_name((#[trigger] ts[i]).name),
        forall|i: int| 0 <= i < ts.len() ==> without(#[trigger] behind[i], '{'),
    ensures
        split(head + objects_text(objects, behind), '{') == seq![head] + pieces(objects, behind),
    decreases ts.len(),
{
    let rest = objects_text(objects, behind);
    if ts.len() == 0 {
        assert(head + rest =~= head);
        find_char_is_first(head, '{', 0);
        assert(split(head, '{') =~= seq![head] + pieces(objects, behind));
    } else {
        let first = object_text(objects[0]) + seq!['}'] + behind[0];
        assert(writes_object(objects[0], ts[0]) && plain_name(ts[0].name));
        lemma_object_braces(objects[0], ts[0]);
        assert(without(behind[0], '{'));
        lemma_without_sum(object_text(objects[0]), seq!['}'], '{');
        lemma_without_sum(object_text(objects[0]) + seq!['}'], behind[0], '{');
        let (o2, b2, t2) = (objects.skip(1), behind.skip(1), ts.skip(1));
        assert forall|i: int| 0 <= i < t2.len() implies writes_object(#[trigger] o2[i], t2[i]) by {
            assert(writes_object(objects[i + 1], ts[i + 1]));
        }
        assert forall|i: int| 0 <= i < t2.len() implies plain_name((#[trigger] t2[i]).name) by {
            assert(plain_name(ts[i + 1].name));
        }
        assert forall|i: int| 0 <= i < t2.len() implies without(#[trigger] b2[i], '{') by {
            assert(without(behind[i + 1], '{'));
        }
        let tail = first + objects_text(o2, b2);
        let whole = head + rest;
        assert(whole =~= head + seq!['{'] + tail);
        lemma_char_behind(head, '{', tail);
        lemma_pieces(first, o2, b2, t2);
        assert(whole.take(head.len() as int) =~= head);
        assert(whole.skip(head.len() as int + 1) =~= tail);
        assert(split(whole, '{') =~= seq![head] + (seq![first] + pieces(o2, b2)));
        assert(seq![first] + pieces(o2, b2) =~= pieces(objects, behind));
    }
}

/// Objects one after the other are read as the tensors that they write.
proof fn lemma_objects_read(
    objects: Seq<Seq<FieldText>>,
    behind: Seq<Seq<char>>,
    ts: Seq<TensorView>,
)
    requires
        objects.len() == ts.len(),
        behind.len() == ts.len(),
        forall|i: int| 0 <= i < ts.len() ==> writes_object(#[trigger] objects[i], ts[i]),
        forall|i: int| 0 <= i < ts.len() ==> plain_name((#[trigger] ts[i]).name),
    ensures
        load_objects(pieces(objects, behind)) == Loading::Going(listing(ts)),
    decreases ts.len(),
{
    if ts.len() > 0 {
        let n = ts.len() - 1;
        let (o2, b2, t2) = (objects.drop_last(), behind.drop_last(), ts.drop_last());
        assert forall|i: int| 0 <= i < t2.len() implies writes_object(#[trigger] o2[i], t2[i]) by {
            assert(writes_object(objects[i], ts[i]));
        }
        assert forall|i: int| 0 <= i < t2.len() implies plain_name((#[trigger] t2[i]).name) by {
            assert(plain_name(ts[i].name));
        }
        lemma_objects_read(o2, b2, t2);
        assert(pieces(objects, behind).drop_last() =~= pieces(o2, b2));
        assert(writes_object(objects[n], ts[n]) && plain_name(ts[n].name));
        lemma_object_read(objects[n], ts[n], behind[n], listing(t2));
    }
}

/// Of tensors with different names, an index lists the names in order and holds each
/// tensor under its name.
proof fn lemma_listing(ts: Seq<TensorView>)
    requires
        forall|i: int, j: int|
            0 <= i < j < ts.len() ==> (#[trigger] ts[i]).name != (#[trigger] ts[j]).name,
    ensures
        listing(ts).order == Seq::new(ts.len(), |i: int| ts[i].name),
        listing(ts).tensors.dom().finite(),
        listing(ts).tensors.len() == ts.len(),
        forall|i: int|
            0 <= i < ts.len() ==> listing(ts).tensors.contains_key((#[trigger] ts[i]).name)
                && listing(ts).tensors[ts[i].name] == ts[i],
        forall|n: Seq<char>| #[trigger]
            listing(ts).tensors.contains_key(n) ==> exists|i: int|
                0 <= i < ts.len() && (#[trigger] ts[i]).name == n,
    decreases ts.len(),
{
    if ts.len() == 0 {
        assert(listing(ts).order =~= Seq::new(ts.len(), |i: int| ts[i].name));
    } else {
        let n = ts.len() - 1;
        let t2 = ts.drop_last();
        let before = listing(t2);
        assert forall|i: int, j: int| 0 <= i < j < t2.len() implies (#[trigger] t2[i]).name != (
        #[trigger] t2[j]).name by {
            assert(ts[i].name != ts[j].name);
        }
        lemma_listing(t2);
        let after = listing(ts);
        assert(after.order =~= Seq::new(ts.len(), |i: int| ts[i].name));
        assert(!before.tensors.contains_key(ts[n].name)) by {
            if before.tensors.contains_key(ts[n].name) {
                let i = choose|i: int| 0 <= i < t2.len() && (#[trigger] t2[i]).name == ts[n].name;
                assert(ts[i].name != ts[n].name);
            }
        }
        assert(after.tensors.dom() =~= before.tensors.dom().insert(ts[n].name));
        assert forall|i: int| 0 <= i < ts.len() implies after.tensors.contains_key(
            (#[trigger] ts[i]).name,
        ) && after.tensors[ts[i].name] == ts[i] by {
            if i < n {
                assert(t2[i] == ts[i]);
                assert(ts[i].name != ts[n].name);
            }
        }
        assert forall|m: Seq<char>| #[trigger] after.tensors.contains_key(m) implies exists|i: int|
            0 <= i < ts.len() && (#[trigger] ts[i]).name == m by {
            if m == ts[n].name {
                assert(ts[n].name == m);
            } else {
                assert(before.tensors.contains_key(m));
                let i = choose|i: int| 0 <= i < t2.len() && (#[trigger] t2[i]).name == m;
                assert(ts[i].name == m);
            }
        }
    }
}

/// A document that lists tensors with different plain names loads as exactly those:
/// their names in the order of the document, and each tensor, with its shape, offset
/// and size, under its name.
pub proof fn document_loads_as_written(path: Seq<char>, d: DocumentText, ts: Seq<TensorView>)
    requires
        ts.len() > 0,
        d.lists(ts),
        forall|i: int| 0 <= i < ts.len() ==> plain_name((#[trigger] ts[i]).name),
        forall|i: int, j: int|
            0 <= i < j < ts.len() ==> (#[trigger] ts[i]).name != (#[trigger] ts[j]).name,
    ensures
        load_outcome(path, d.text()) matches Some(Ok(ix)) && {
            &&& ix.order == Seq::new(ts.len(), |i: int| ts[i].name)
            &&& ix.tensors.len() == ts.len()
            &&& forall|i: int|
                0 <= i < ts.len() ==> ix.tensors.contains_key((#[trigger] ts[i]).name)
                    && ix.tensors[ts[i].name] == ts[i]
        },
{
    lemma_alone_without(d.head, '[', '{');
    assert forall|i: int| 0 <= i < ts.len() implies without(#[trigger] d.behind[i], '{') by {
        let c = if i == ts.len() - 1 {
            ']'
        } else {
            ','
        };
        assert(alone(d.behind[i], c));
        lemma_alone_without(d.behind[i], c, '{');
    }
    lemma_pieces(d.head, d.objects, d.behind, ts);
    let all = split(d.text(), '{');
    assert(all.skip(1) =~= pieces(d.objects, d.behind));
    lemma_objects_read(d.objects, d.behind, ts);
    lemma_listing(ts);
    assert(load_text(d.text()) == Loading::Going(listing(ts)));
    assert(listing(ts).order.len() == ts.len());
}

} // verus!

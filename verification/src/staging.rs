//! Derived tensors, packed for one copy to the device.
//!
//! The tensors of the blob are addressed where they lie in its copy. What is left
//! are the folded BatchNorms, many and small, which are packed one after the other
//! and copied together.

use vstd::prelude::*;

use crate::cuda::{Addr, Base, Dev};
use crate::text::{
    chars_of, part, string_of, text_le, text_le_total, text_le_transitive, text_ordered,
};
use crate::weights::texts;

verus! {

// ---------------------------------------------------------------------------
// Packing
// ---------------------------------------------------------------------------

/// Where a staged tensor lies: its offset in bytes and its length in floats.
#[derive(Clone, Copy, PartialEq, Eq, Structural, Debug)]
pub struct Record {
    pub offset: usize,
    pub len: usize,
}

/// Tensors packed for one copy, by the bits of their floats.
pub struct Staging {
    pub host: Vec<u32>,
    pub records: Vec<Record>,
}

/// Packed tensors as a value.
#[verifier::ext_equal]
pub ghost struct Packed {
    pub host: Seq<u32>,
    pub records: Seq<Record>,
}

impl View for Staging {
    type V = Packed;

    open spec fn view(&self) -> Packed {
        Packed { host: self.host@, records: self.records@ }
    }
}

/// `n` rounded up to whole groups of four floats, which are sixteen bytes.
pub open spec fn rounded(n: nat) -> nat {
    (n + 3) / 4 * 4
}

/// The floats, and zeros up to the next sixteen-byte boundary.
pub open spec fn with_zeros(host: Seq<u32>) -> Seq<u32> {
    Seq::new(
        rounded(host.len()),
        |i: int|
            if i < host.len() {
                host[i]
            } else {
                0
            },
    )
}

impl Packed {
    pub open spec fn empty() -> Packed {
        Packed { host: Seq::empty(), records: Seq::empty() }
    }

    /// With one more tensor.
    pub open spec fn push(self, data: Seq<u32>) -> Packed {
        Packed {
            host: with_zeros(self.host + data),
            records: self.records.push(
                Record { offset: (self.host.len() * 4) as usize, len: data.len() as usize },
            ),
        }
    }

    /// The floats of a record.
    pub open spec fn tensor(self, i: int) -> Seq<u32> {
        let r = self.records[i];
        self.host.subrange(r.offset as int / 4, r.offset as int / 4 + r.len)
    }

    /// Every record starts at a sixteen-byte boundary and lies inside the buffer,
    /// after all the records before it.
    pub open spec fn sound(self) -> bool {
        &&& self.host.len() % 4 == 0
        &&& forall|i: int|
            0 <= i < self.records.len() ==> {
                &&& (#[trigger] self.records[i]).offset % 16 == 0
                &&& self.records[i].offset + self.records[i].len * 4 <= self.host.len() * 4
            }
        &&& forall|i: int, j: int|
            0 <= i < j < self.records.len() ==> (#[trigger] self.records[i]).offset
                + self.records[i].len * 4 <= (#[trigger] self.records[j]).offset
    }
}

/// Packing keeps the records aligned, inside the buffer and apart, keeps every
/// tensor that was packed before, and the new one reads back as it was.
pub proof fn push_keeps_tensors(s: Packed, data: Seq<u32>)
    requires
        s.sound(),
        (s.host.len() + data.len() + 3) * 4 <= usize::MAX,
    ensures
        s.push(data).sound(),
        s.push(data).records.len() == s.records.len() + 1,
        s.push(data).tensor(s.records.len() as int) == data,
        forall|i: int|
            0 <= i < s.records.len() ==> #[trigger] s.push(data).tensor(i) == s.tensor(i),
{
    let t = s.push(data);
    let n = s.records.len() as int;
    assert(t.tensor(n) =~= data);
    assert forall|i: int| 0 <= i < n implies #[trigger] t.tensor(i) == s.tensor(i) by {
        assert(t.records[i] == s.records[i]);
        assert(t.tensor(i) =~= s.tensor(i));
    }
}

impl Staging {
    pub fn new() -> (s: Staging)
        ensures
            s@ == Packed::empty(),
            s@.sound(),
    {
        Staging { host: Vec::new(), records: Vec::new() }
    }

    /// Copy `data` into the buffer and return the record's index. The next tensor
    /// starts at a sixteen-byte boundary, so that every window is aligned for
    /// vectorised access.
    pub fn push(&mut self, data: &Vec<u32>) -> (i: usize)
        requires
            (old(self)@.host.len() + data@.len() + 3) * 4 <= usize::MAX,
        ensures
            i == old(self)@.records.len(),
            final(self)@ == old(self)@.push(data@),
    {
        let at = self.host.len();
        let n = data.len();
        let ghost start = self.host@;
        let ghost records = self.records@;
        let mut k: usize = 0;
        assert(start + data@.take(0) =~= start);
        while k < n
            invariant
                k <= n,
                n == data@.len(),
                self.host@ == start + data@.take(k as int),
                self.records@ == records,
            decreases n - k,
        {
            self.host.push(data[k]);
            assert(self.host@ =~= start + data@.take(k + 1));
            k += 1;
        }
        let ghost all = start + data@;
        assert(data@.take(n as int) =~= data@);
        let size: usize = (at + n + 3) / 4 * 4;
        assert(with_zeros(all).take(all.len() as int) =~= all);
        while self.host.len() < size
            invariant
                size == rounded(all.len()),
                all.len() <= self.host@.len() <= size,
                self.host@ == with_zeros(all).take(self.host@.len() as int),
                self.records@ == records,
            decreases size - self.host@.len(),
        {
            let ghost m = self.host@.len() as int;
            self.host.push(0);
            assert(self.host@ =~= with_zeros(all).take(m + 1));
        }
        assert(with_zeros(all).take(size as int) =~= with_zeros(all));
        let i = self.records.len();
        self.records.push(Record { offset: at * 4, len: n });
        i
    }
}

/// The device window of a staged tensor.
pub open spec fn stage_window(r: Record) -> Dev {
    Dev { addr: Addr { base: Base::Staging, offset: r.offset }, len: r.len, owned: false }
}

/// A device window for a staged tensor.
pub fn staged(r: &Record) -> (d: Dev)
    ensures
        d == stage_window(*r),
{
    Dev { addr: Addr { base: Base::Staging, offset: r.offset }, len: r.len, owned: false }
}

// ---------------------------------------------------------------------------
// The BatchNorms of a model
// ---------------------------------------------------------------------------

/// Whether `s` ends with `suffix`.
pub open spec fn ends_with(s: Seq<char>, suffix: Seq<char>) -> bool {
    suffix.len() <= s.len() && s.skip(s.len() - suffix.len()) == suffix
}

/// `s` without `suffix` at its end, however often it stands there.
pub open spec fn strip(s: Seq<char>, suffix: Seq<char>) -> Seq<char>
    decreases s.len(),
{
    if suffix.len() > 0 && ends_with(s, suffix) {
        strip(s.take(s.len() - suffix.len()), suffix)
    } else {
        s
    }
}

/// Every BatchNorm has one tensor with this ending.
pub open spec fn var_suffix() -> Seq<char> {
    ".running_var"@
}

/// The BatchNorms among the named tensors, in the order of the names.
pub open spec fn modules(order: Seq<Seq<char>>) -> Seq<Seq<char>>
    decreases order.len(),
{
    if order.len() == 0 {
        Seq::empty()
    } else {
        let before = modules(order.drop_last());
        if ends_with(order.last(), var_suffix()) {
            before.push(strip(order.last(), var_suffix()))
        } else {
            before
        }
    }
}

/// An ordered list with one more name, after all that are not greater.
pub open spec fn insert_name(s: Seq<Seq<char>>, x: Seq<char>) -> Seq<Seq<char>>
    decreases s.len(),
{
    if s.len() == 0 || text_le(s.last(), x) {
        s.push(x)
    } else {
        insert_name(s.drop_last(), x).push(s.last())
    }
}

/// The names in order.
pub open spec fn sorted(s: Seq<Seq<char>>) -> Seq<Seq<char>>
    decreases s.len(),
{
    if s.len() == 0 {
        Seq::empty()
    } else {
        insert_name(sorted(s.drop_last()), s.last())
    }
}

fn has_end(s: &[char], suffix: &[char]) -> (r: bool)
    ensures
        r == ends_with(s@, suffix@),
{
    if suffix.len() > s.len() {
        return false;
    }
    let tail = part(s, s.len() - suffix.len(), s.len());
    assert(tail@ =~= s@.skip(s@.len() - suffix@.len()));
    crate::text::same_chars(tail, suffix)
}

fn strip_end<'a>(s: &'a [char], suffix: &[char]) -> (r: &'a [char])
    ensures
        r@ == strip(s@, suffix@),
{
    let mut n: usize = s.len();
    assert(s@.take(n as int) =~= s@);
    while suffix.len() > 0 && has_end(part(s, 0, n), suffix)
        invariant
            n <= s@.len(),
            strip(s@, suffix@) == strip(s@.take(n as int), suffix@),
        ensures
            n <= s@.len(),
            strip(s@, suffix@) == strip(s@.take(n as int), suffix@),
            !(suffix@.len() > 0 && ends_with(s@.take(n as int), suffix@)),
        decreases n,
    {
        let ghost cur = s@.take(n as int);
        n = n - suffix.len();
        assert(cur.take(cur.len() - suffix@.len()) =~= s@.take(n as int));
    }
    let r = part(s, 0, n);
    assert(r@ =~= s@.take(n as int));
    r
}

proof fn lemma_insert_at(s: Seq<Seq<char>>, x: Seq<char>, i: int)
    requires
        0 <= i <= s.len(),
        i == 0 || text_le(s[i - 1], x),
        forall|j: int| i <= j < s.len() ==> !text_le(#[trigger] s[j], x),
    ensures
        insert_name(s, x) == s.insert(i, x),
    decreases s.len(),
{
    if s.len() == 0 || text_le(s.last(), x) {
        assert(s.insert(i, x) =~= s.push(x));
    } else {
        assert forall|j: int| i <= j < s.drop_last().len() implies !text_le(
            #[trigger] s.drop_last()[j],
            x,
        ) by {
            assert(s.drop_last()[j] == s[j]);
        }
        lemma_insert_at(s.drop_last(), x, i);
        assert(s.drop_last().insert(i, x).push(s.last()) =~= s.insert(i, x));
    }
}

fn insert_in_order(v: &mut Vec<String>, x: String)
    ensures
        texts(final(v)@) == insert_name(texts(old(v)@), x@),
{
    let key = chars_of(x.as_str());
    let mut i: usize = v.len();
    let ghost names = texts(v@);
    while i > 0
        invariant
            i <= v@.len(),
            key@ == x@,
            names == texts(v@),
            forall|j: int| i <= j < names.len() ==> !text_le(#[trigger] names[j], x@),
        ensures
            i <= v@.len(),
            names == texts(v@),
            forall|j: int| i <= j < names.len() ==> !text_le(#[trigger] names[j], x@),
            i == 0 || text_le(names[i - 1], x@),
        decreases i,
    {
        let before = chars_of(v[i - 1].as_str());
        if text_ordered(before.as_slice(), key.as_slice()) {
            break;
        }
        i -= 1;
    }
    proof {
        lemma_insert_at(names, x@, i as int);
    }
    v.insert(i, x);
    assert(texts(v@) =~= names.insert(i as int, x@));
}

/// The modules whose `running_var` is among the named tensors, sorted.
pub fn bn_modules(order: &Vec<String>) -> (r: Vec<String>)
    ensures
        texts(r@) == sorted(modules(texts(order@))),
{
    let suffix = chars_of(".running_var");
    let ghost names = texts(order@);
    let mut out: Vec<String> = Vec::new();
    let mut i: usize = 0;
    assert(names.take(0) =~= Seq::empty());
    assert(texts(out@) =~= Seq::empty());
    while i < order.len()
        invariant
            i <= order@.len(),
            suffix@ == var_suffix(),
            names == texts(order@),
            texts(out@) == sorted(modules(names.take(i as int))),
        decreases order@.len() - i,
    {
        let name = chars_of(order[i].as_str());
        let ghost next = names.take(i + 1);
        assert(next.drop_last() =~= names.take(i as int));
        assert(next.last() == name@);
        if has_end(name.as_slice(), suffix.as_slice()) {
            let module = string_of(strip_end(name.as_slice(), suffix.as_slice()));
            let ghost before = modules(names.take(i as int));
            assert(modules(next) == before.push(module@));
            assert(before.push(module@).drop_last() =~= before);
            insert_in_order(&mut out, module);
        }
        i += 1;
    }
    assert(names.take(i as int) =~= names);
    out
}

/// Each name comes before those that follow it.
pub open spec fn ordered(s: Seq<Seq<char>>) -> bool {
    forall|i: int, j: int| 0 <= i <= j < s.len() ==> text_le(#[trigger] s[i], #[trigger] s[j])
}

proof fn lemma_insert_ordered(s: Seq<Seq<char>>, x: Seq<char>)
    requires
        ordered(s),
    ensures
        ordered(insert_name(s, x)),
        insert_name(s, x).to_multiset() == s.to_multiset().insert(x),
        insert_name(s, x).len() == s.len() + 1,
        s.len() > 0 && !text_le(s.last(), x) ==> insert_name(s, x).last() == s.last(),
        forall|i: int|
            0 <= i <= s.len() ==> (#[trigger] insert_name(s, x)[i] == x || s.contains(
                insert_name(s, x)[i],
            )),
    decreases s.len(),
{
    broadcast use vstd::seq_lib::group_to_multiset_ensures;

    let r = insert_name(s, x);
    text_le_total(x, x);
    if s.len() == 0 || text_le(s.last(), x) {
        assert forall|i: int, j: int| 0 <= i <= j < r.len() implies text_le(
            #[trigger] r[i],
            #[trigger] r[j],
        ) by {
            if j == s.len() && i < j {
                assert(text_le(s[i], s.last()));
                text_le_transitive(s[i], s.last(), x);
            }
        }
        assert forall|i: int| 0 <= i <= s.len() implies (#[trigger] r[i] == x || s.contains(
            r[i],
        )) by {
            if i < s.len() {
                assert(r[i] == s[i]);
            }
        }
    } else {
        let t = s.drop_last();
        assert forall|i: int, j: int| 0 <= i <= j < t.len() implies text_le(
            #[trigger] t[i],
            #[trigger] t[j],
        ) by {
            assert(t[i] == s[i] && t[j] == s[j]);
        }
        lemma_insert_ordered(t, x);
        let q = insert_name(t, x);
        text_le_total(s.last(), x);
        text_le_total(s.last(), s.last());
        assert forall|i: int| 0 <= i <= s.len() implies (#[trigger] r[i] == x || s.contains(
            r[i],
        )) by {
            if i == s.len() {
                assert(r[i] == s[s.len() - 1]);
            } else {
                assert(r[i] == q[i]);
                if q[i] != x {
                    let k = choose|k: int| 0 <= k < t.len() && t[k] == q[i];
                    assert(s[k] == q[i]);
                }
            }
        }
        assert forall|i: int, j: int| 0 <= i <= j < r.len() implies text_le(
            #[trigger] r[i],
            #[trigger] r[j],
        ) by {
            if j == q.len() && i < j {
                assert(r[i] == q[i]);
                if q[i] != x {
                    let k = choose|k: int| 0 <= k < t.len() && t[k] == q[i];
                    assert(s[k] == q[i]);
                    assert(text_le(s[k], s[s.len() - 1]));
                }
            } else if j < q.len() {
                assert(r[i] == q[i] && r[j] == q[j]);
            }
        }
        assert(s =~= t.push(s.last()));
        assert(r.to_multiset() =~= s.to_multiset().insert(x));
    }
}

/// Sorting orders the names and neither loses nor adds one.
pub proof fn sorted_is_ordered(s: Seq<Seq<char>>)
    ensures
        ordered(sorted(s)),
        sorted(s).to_multiset() == s.to_multiset(),
    decreases s.len(),
{
    broadcast use vstd::seq_lib::group_to_multiset_ensures;

    if s.len() > 0 {
        sorted_is_ordered(s.drop_last());
        lemma_insert_ordered(sorted(s.drop_last()), s.last());
        assert(s =~= s.drop_last().push(s.last()));
    } else {
        assert(sorted(s) =~= s);
    }
}

/// A tensor's name is that of the variance of a module.
pub open spec fn is_variance_of(name: Seq<char>, module: Seq<char>) -> bool {
    ends_with(name, ".running_var"@) && module == strip(name, ".running_var"@)
}

/// The modules are those whose variance is among the named tensors: every such name has
/// its module, and every module such a name.
pub proof fn variances_name_the_modules(order: Seq<Seq<char>>)
    ensures
        forall|i: int, m: Seq<char>|
            0 <= i < order.len() && #[trigger] is_variance_of(order[i], m) ==> modules(
                order,
            ).contains(m),
        forall|k: int|
            0 <= k < modules(order).len() ==> has_variance(order, #[trigger] modules(order)[k]),
    decreases order.len(),
{
    if order.len() > 0 {
        let before = order.drop_last();
        let (a, b) = (modules(before), modules(order));
        variances_name_the_modules(before);
        let n = order.len() - 1;
        assert forall|i: int, m: Seq<char>|
            0 <= i < order.len() && #[trigger] is_variance_of(order[i], m) implies b.contains(m) by {
            if i < n {
                assert(is_variance_of(before[i], m));
                assert(a.contains(m));
                let k = a.index_of(m);
                assert(b[k] == a[k]);
            } else {
                assert(b[b.len() - 1] == m);
            }
        }
        assert forall|k: int| 0 <= k < b.len() implies has_variance(order, #[trigger] b[k]) by {
            if k < a.len() {
                assert(b[k] == a[k]);
                assert(has_variance(before, a[k]));
                let i = choose|i: int|
                    0 <= i < before.len() && #[trigger] is_variance_of(before[i], a[k]);
                assert(is_variance_of(order[i], b[k]));
            } else {
                assert(is_variance_of(order[n], b[k]));
            }
        }
    }
}

/// Some tensor is the variance of a module.
pub open spec fn has_variance(order: Seq<Seq<char>>, module: Seq<char>) -> bool {
    exists|i: int| 0 <= i < order.len() && #[trigger] is_variance_of(order[i], module)
}

/// A module's own name comes out of the name of its variance.
pub proof fn variance_names_its_module(module: Seq<char>)
    requires
        !ends_with(module, ".running_var"@),
    ensures
        ends_with(module + ".running_var"@, ".running_var"@),
        strip(module + ".running_var"@, ".running_var"@) == module,
{
    reveal_strlit(".running_var");
    let s = module + ".running_var"@;
    let n = ".running_var"@.len();
    assert(s.skip(s.len() - n) =~= ".running_var"@);
    assert(s.take(s.len() - n) =~= module);
    reveal_with_fuel(strip, 2);
}

} // verus!

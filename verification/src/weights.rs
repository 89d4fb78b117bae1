//! Weight index and the flat blob that it describes.
//!
//! The blob is every tensor of the network, row-major little-endian FP32, one
//! after the other. The index is a JSON document: a flat array of objects, each
//! with the `name`, `shape`, `offset` and `nbytes` of one tensor.
//!
//! FP32 values are handled as their bit patterns throughout.

use vstd::hash_map::StringHashMap;
use vstd::prelude::*;

use crate::text::{
    cat, chars_of, dec, decimal, decimal_usize, digits_value, find_char, find_char_in, find_text,
    find_text_in, lead, lead_len, parse_usize, part, reads_as_usize, split, split_at_char,
    string_of, trim, trim_of, trim_start, trim_start_of, unsigned_digits, usize_complaint, views,
    Class,
};

verus! {

// ---------------------------------------------------------------------------
// Tensors
// ---------------------------------------------------------------------------

/// One tensor in the blob: contiguous row-major FP32.
#[derive(Debug, Clone)]
pub struct TensorInfo {
    pub name: String,
    pub shape: Vec<usize>,
    pub offset: usize,
    pub nbytes: usize,
}

/// What a `TensorInfo` says.
pub struct TensorView {
    pub name: Seq<char>,
    pub shape: Seq<usize>,
    pub offset: usize,
    pub nbytes: usize,
}

impl View for TensorInfo {
    type V = TensorView;

    open spec fn view(&self) -> TensorView {
        TensorView {
            name: self.name@,
            shape: self.shape@,
            offset: self.offset,
            nbytes: self.nbytes,
        }
    }
}

/// The product of the extents: how many values a tensor of this shape holds.
pub open spec fn shape_product(shape: Seq<usize>) -> nat
    decreases shape.len(),
{
    if shape.len() == 0 {
        1
    } else {
        shape_product(shape.drop_last()) * (shape.last() as nat)
    }
}

proof fn lemma_product_zero(shape: Seq<usize>, i: int)
    requires
        0 <= i < shape.len(),
        shape[i] == 0,
    ensures
        shape_product(shape) == 0,
    decreases shape.len(),
{
    if i < shape.len() - 1 {
        lemma_product_zero(shape.drop_last(), i);
    }
    assert(shape_product(shape.drop_last()) * (shape.last() as nat) == 0) by (nonlinear_arith)
        requires
            shape_product(shape.drop_last()) == 0 || shape.last() == 0,
    ;
}

/// Leading extents never multiply to more than all of them, where none is zero.
proof fn lemma_product_prefix(shape: Seq<usize>, n: int)
    requires
        0 <= n <= shape.len(),
        forall|i: int| 0 <= i < shape.len() ==> shape[i] > 0,
    ensures
        1 <= shape_product(shape.take(n)) <= shape_product(shape),
    decreases shape.len(),
{
    if n == shape.len() {
        assert(shape.take(n) =~= shape);
        if shape.len() > 0 {
            lemma_product_prefix(shape.drop_last(), n - 1);
            assert(shape.drop_last().take(n - 1) =~= shape.drop_last());
            let (a, b) = (shape_product(shape.drop_last()), shape.last() as nat);
            assert(1 <= a * b) by (nonlinear_arith)
                requires
                    1 <= a,
                    1 <= b,
            ;
        }
    } else {
        lemma_product_prefix(shape.drop_last(), n);
        assert(shape.drop_last().take(n) =~= shape.take(n));
        let (a, b) = (shape_product(shape.drop_last()), shape.last() as nat);
        assert(a <= a * b) by (nonlinear_arith)
            requires
                1 <= b,
        ;
    }
}

/// The number of values in a tensor of this shape, where a `usize` holds it.
pub fn count_values(shape: &Vec<usize>) -> (r: Option<usize>)
    ensures
        match r {
            Some(n) => n == shape_product(shape@),
            None => shape_product(shape@) > usize::MAX,
        },
{
    let mut i: usize = 0;
    while i < shape.len()
        invariant
            i <= shape@.len(),
            forall|j: int| 0 <= j < i ==> shape@[j] > 0,
        decreases shape@.len() - i,
    {
        if shape[i] == 0 {
            proof {
                lemma_product_zero(shape@, i as int);
            }
            return Some(0);
        }
        i += 1;
    }
    let mut n: usize = 1;
    let mut k: usize = 0;
    assert(shape@.take(0) =~= Seq::empty());
    while k < shape.len()
        invariant
            k <= shape@.len(),
            n == shape_product(shape@.take(k as int)),
            forall|j: int| 0 <= j < shape@.len() ==> shape@[j] > 0,
        decreases shape@.len() - k,
    {
        assert(shape@.take(k + 1).drop_last() =~= shape@.take(k as int));
        proof {
            lemma_product_prefix(shape@, k + 1);
        }
        match n.checked_mul(shape[k]) {
            Some(m) => n = m,
            None => {
                return None;
            },
        }
        k += 1;
    }
    assert(shape@.take(k as int) =~= shape@);
    Some(n)
}

impl TensorInfo {
    /// The number of values in the tensor: the product of its extents.
    pub fn numel(&self) -> (n: usize)
        requires
            shape_product(self.shape@) <= usize::MAX,
        ensures
            n == shape_product(self.shape@),
    {
        match count_values(&self.shape) {
            Some(n) => n,
            None => 0,
        }
    }
}

// ---------------------------------------------------------------------------
// The JSON reader
// ---------------------------------------------------------------------------

/// `key` between double quotes.
pub open spec fn quoted(key: Seq<char>) -> Seq<char> {
    seq!['"'] + key + seq!['"']
}

/// What follows the first mention of the quoted `key` in `obj`.
pub open spec fn after_key(obj: Seq<char>, key: Seq<char>) -> Option<Seq<char>> {
    match find_text(obj, quoted(key), 0) {
        Some(at) => Some(obj.skip(at + quoted(key).len())),
        None => None,
    }
}

/// What follows the first `c` in `s`.
pub open spec fn after_char(s: Seq<char>, c: char) -> Option<Seq<char>> {
    match find_char(s, c, 0) {
        Some(i) => Some(s.skip(i + 1)),
        None => None,
    }
}

/// What stands before the first `c` in `s`.
pub open spec fn before_char(s: Seq<char>, c: char) -> Option<Seq<char>> {
    match find_char(s, c, 0) {
        Some(i) => Some(s.take(i)),
        None => None,
    }
}

/// The text value of `key`: what stands between the next two double quotes.
pub open spec fn str_field(obj: Seq<char>, key: Seq<char>) -> Option<Seq<char>> {
    match after_key(obj, key) {
        Some(rest) => match after_char(rest, '"') {
            Some(tail) => before_char(tail, '"'),
            None => None,
        },
        None => None,
    }
}

/// The number value of `key`: the digits after the next colon and any white
/// space.
pub open spec fn usize_field(obj: Seq<char>, key: Seq<char>) -> Option<usize> {
    match after_key(obj, key) {
        Some(rest) => match after_char(rest, ':') {
            Some(tail) => {
                let d = trim_start(tail);
                let digits = d.take(lead(d, Class::Digit) as int);
                if reads_as_usize(digits) {
                    Some(digits_value(digits) as usize)
                } else {
                    None
                }
            },
            None => None,
        },
        None => None,
    }
}

/// The numbers that the items stand for, or the complaint about the first that
/// stands for none.
pub open spec fn read_items(items: Seq<Seq<char>>) -> Result<Seq<usize>, Seq<char>>
    decreases items.len(),
{
    if items.len() == 0 {
        Ok(Seq::empty())
    } else {
        match read_items(items.drop_last()) {
            Ok(v) => {
                let t = trim(items.last());
                if reads_as_usize(t) {
                    Ok(v.push(digits_value(unsigned_digits(t)) as usize))
                } else {
                    Err(usize_complaint(t))
                }
            },
            Err(e) => Err(e),
        }
    }
}

/// How the reading of a list field ends.
pub enum ListReading {
    /// The closing bracket stands before the opening one: there is no list.
    Inverted,
    /// The field or one of its items is missing or malformed.
    Malformed(Seq<char>),
    Numbers(Seq<usize>),
}

/// The list value of `key`: the numbers between the next brackets.
pub open spec fn usize_list_field(obj: Seq<char>, key: Seq<char>) -> ListReading {
    match after_key(obj, key) {
        None => ListReading::Malformed("missing "@ + key),
        Some(rest) => match find_char(rest, '[', 0) {
            None => ListReading::Malformed("missing ["@),
            Some(open) => match find_char(rest, ']', 0) {
                None => ListReading::Malformed("missing ]"@),
                Some(close) => if close < open {
                    ListReading::Inverted
                } else {
                    let body = rest.subrange(open + 1, close);
                    if trim(body).len() == 0 {
                        ListReading::Numbers(Seq::empty())
                    } else {
                        match read_items(split(body, ',')) {
                            Ok(v) => ListReading::Numbers(v),
                            Err(e) => ListReading::Malformed(e),
                        }
                    }
                },
            },
        },
    }
}

/// The quoted key as it is searched for.
fn quoted_key(key: &str) -> (r: Vec<char>)
    ensures
        r@ == quoted(key@),
{
    let mut out: Vec<char> = Vec::new();
    out.push('"');
    let mut k = chars_of(key);
    out.append(&mut k);
    out.push('"');
    assert(out@ =~= quoted(key@));
    out
}

fn rest_after_key<'a>(obj: &'a [char], key: &str) -> (r: Option<&'a [char]>)
    ensures
        match r {
            Some(rest) => after_key(obj@, key@) == Some(rest@),
            None => after_key(obj@, key@) is None,
        },
{
    let q = quoted_key(key);
    match find_text_in(obj, q.as_slice()) {
        Some(at) => {
            let n = obj.len();
            let rest = part(obj, at + q.len(), n);
            assert(rest@ =~= obj@.skip(at + quoted(key@).len()));
            Some(rest)
        },
        None => None,
    }
}

fn rest_after_char<'a>(s: &'a [char], c: char) -> (r: Option<&'a [char]>)
    ensures
        match r {
            Some(rest) => after_char(s@, c) == Some(rest@),
            None => after_char(s@, c) is None,
        },
{
    match find_char_in(s, c) {
        Some(i) => {
            let n = s.len();
            let rest = part(s, i + 1, n);
            assert(rest@ =~= s@.skip(i + 1));
            Some(rest)
        },
        None => None,
    }
}

fn start_before_char<'a>(s: &'a [char], c: char) -> (r: Option<&'a [char]>)
    ensures
        match r {
            Some(start) => before_char(s@, c) == Some(start@),
            None => before_char(s@, c) is None,
        },
{
    match find_char_in(s, c) {
        Some(i) => {
            let start = part(s, 0, i);
            assert(start@ =~= s@.take(i as int));
            Some(start)
        },
        None => None,
    }
}

/// The text value of `key` in the object `obj`.
pub fn json_str(obj: &[char], key: &str) -> (r: Option<String>)
    ensures
        match r {
            Some(v) => str_field(obj@, key@) == Some(v@),
            None => str_field(obj@, key@) is None,
        },
{
    match rest_after_key(obj, key) {
        Some(rest) => match rest_after_char(rest, '"') {
            Some(tail) => match start_before_char(tail, '"') {
                Some(value) => Some(string_of(value)),
                None => None,
            },
            None => None,
        },
        None => None,
    }
}

/// The number value of `key` in the object `obj`.
pub fn json_usize(obj: &[char], key: &str) -> (r: Option<usize>)
    ensures
        r == usize_field(obj@, key@),
{
    match rest_after_key(obj, key) {
        Some(rest) => match rest_after_char(rest, ':') {
            Some(tail) => {
                let d = trim_start_of(tail);
                let n = lead_len(d, Class::Digit);
                let digits = part(d, 0, n);
                assert(digits@ =~= d@.take(n as int));
                proof {
                    lemma_lead_unsigned(d@);
                }
                match parse_usize(string_of(digits).as_str()) {
                    Ok(v) => Some(v),
                    Err(_) => None,
                }
            },
            None => None,
        },
        None => None,
    }
}

/// A run of digits has no sign to skip.
proof fn lemma_lead_unsigned(d: Seq<char>)
    ensures
        ({
            let digits = d.take(lead(d, Class::Digit) as int);
            unsigned_digits(digits) == digits
        }),
{
    let n = lead(d, Class::Digit);
    crate::text::lemma_lead_bound(d, Class::Digit);
    if n > 0 {
        assert(d.take(n as int)[0] == d[0]);
    }
}

/// The numbers that the items stand for.
fn json_items(items: &Vec<&[char]>) -> (r: Result<Vec<usize>, String>)
    ensures
        match r {
            Ok(v) => read_items(views(items@)) == Ok::<Seq<usize>, Seq<char>>(v@),
            Err(e) => read_items(views(items@)) == Err::<Seq<usize>, Seq<char>>(e@),
        },
{
    let mut out: Vec<usize> = Vec::new();
    let mut i: usize = 0;
    assert(views(items@).take(0) =~= Seq::empty());
    while i < items.len()
        invariant
            i <= items@.len(),
            read_items(views(items@).take(i as int)) == Ok::<Seq<usize>, Seq<char>>(out@),
        decreases items@.len() - i,
    {
        let ghost all = views(items@);
        assert(all.take(i + 1).drop_last() =~= all.take(i as int));
        assert(all.take(i + 1).last() == items@[i as int]@);
        let t = trim_of(items[i]);
        match parse_usize(string_of(t).as_str()) {
            Ok(v) => out.push(v),
            Err(e) => {
                proof {
                    lemma_read_items_error(all, i + 1);
                }
                return Err(e);
            },
        }
        i += 1;
    }
    assert(views(items@).take(i as int) =~= views(items@));
    Ok(out)
}

/// An item that cannot be read decides the outcome, whatever follows it.
proof fn lemma_read_items_error(items: Seq<Seq<char>>, n: int)
    requires
        0 <= n <= items.len(),
        read_items(items.take(n)) is Err,
    ensures
        read_items(items) == read_items(items.take(n)),
    decreases items.len(),
{
    if n == items.len() {
        assert(items.take(n) =~= items);
    } else {
        assert(items.drop_last().take(n) =~= items.take(n));
        lemma_read_items_error(items.drop_last(), n);
    }
}

/// The list value of `key` in the object `obj`; nothing where the brackets are
/// the wrong way round.
pub fn json_usize_list(obj: &[char], key: &str) -> (r: Option<Result<Vec<usize>, String>>)
    ensures
        match r {
            Some(Ok(v)) => usize_list_field(obj@, key@) == ListReading::Numbers(v@),
            Some(Err(e)) => usize_list_field(obj@, key@) == ListReading::Malformed(e@),
            None => usize_list_field(obj@, key@) == ListReading::Inverted,
        },
{
    let rest = match rest_after_key(obj, key) {
        Some(rest) => rest,
        None => {
            return Some(Err(cat("missing ", key)));
        },
    };
    let open = match find_char_in(rest, '[') {
        Some(i) => i,
        None => {
            return Some(Err("missing [".to_owned()));
        },
    };
    let close = match find_char_in(rest, ']') {
        Some(i) => i,
        None => {
            return Some(Err("missing ]".to_owned()));
        },
    };
    if close < open {
        return None;
    }
    proof {
        crate::text::find_char_is_first(rest@, '[', 0);
        crate::text::find_char_is_first(rest@, ']', 0);
    }
    let body = part(rest, open + 1, close);
    if trim_of(body).len() == 0 {
        let out: Vec<usize> = Vec::new();
        assert(out@ =~= Seq::empty());
        return Some(Ok(out));
    }
    Some(json_items(&split_at_char(body, ',')))
}

// ---------------------------------------------------------------------------
// The index
// ---------------------------------------------------------------------------

/// The tensors by name, and their names in the order of the document.
pub struct WeightIndex {
    pub tensors: StringHashMap<TensorInfo>,
    pub order: Vec<String>,
}

/// What a `WeightIndex` says.
#[verifier::ext_equal]
pub struct IndexView {
    pub tensors: Map<Seq<char>, TensorView>,
    pub order: Seq<Seq<char>>,
}

/// What the names say.
pub open spec fn texts(v: Seq<String>) -> Seq<Seq<char>> {
    Seq::new(v.len(), |i: int| v[i]@)
}

impl View for WeightIndex {
    type V = IndexView;

    open spec fn view(&self) -> IndexView {
        IndexView {
            tensors: self.tensors@.map_values(|t: TensorInfo| t@),
            order: texts(self.order@),
        }
    }
}

impl IndexView {
    pub open spec fn empty() -> IndexView {
        IndexView { tensors: Map::empty(), order: Seq::empty() }
    }

    /// The index with one more tensor; a later tensor takes the place of an
    /// earlier one of the same name.
    pub open spec fn with(self, t: TensorView) -> IndexView {
        IndexView { tensors: self.tensors.insert(t.name, t), order: self.order.push(t.name) }
    }

    /// The listed names are those of the tensors, and each tensor has the name
    /// that it is found under.
    pub open spec fn consistent(self) -> bool {
        &&& forall|i: int|
            0 <= i < self.order.len() ==> self.tensors.contains_key(#[trigger] self.order[i])
        &&& forall|n: Seq<char>| #[trigger]
            self.tensors.contains_key(n) ==> self.order.contains(n) && self.tensors[n].name == n
    }
}

/// How far the reading of an index has come.
pub enum Loading {
    /// A list of extents has its brackets the wrong way round.
    Inverted,
    Failed(Seq<char>),
    Going(IndexView),
}

/// Take in one object: the text after an opening brace. Text without a closing
/// brace, and an object without a name, an offset or a size, is passed over.
pub open spec fn load_object(ix: IndexView, piece: Seq<char>) -> Loading {
    match before_char(piece, '}') {
        None => Loading::Going(ix),
        Some(obj) => match (
            str_field(obj, "name"@),
            usize_field(obj, "offset"@),
            usize_field(obj, "nbytes"@),
        ) {
            (Some(name), Some(offset), Some(nbytes)) => match usize_list_field(obj, "shape"@) {
                ListReading::Inverted => Loading::Inverted,
                ListReading::Malformed(e) => Loading::Failed(e),
                ListReading::Numbers(shape) => Loading::Going(
                    ix.with(TensorView { name, shape, offset, nbytes }),
                ),
            },
            _ => Loading::Going(ix),
        },
    }
}

pub open spec fn load_objects(pieces: Seq<Seq<char>>) -> Loading
    decreases pieces.len(),
{
    if pieces.len() == 0 {
        Loading::Going(IndexView::empty())
    } else {
        match load_objects(pieces.drop_last()) {
            Loading::Going(ix) => load_object(ix, pieces.last()),
            stopped => stopped,
        }
    }
}

/// The whole document: one object after each opening brace.
pub open spec fn load_text(text: Seq<char>) -> Loading {
    load_objects(split(text, '{').skip(1))
}

/// What the reading of `text`, found at `path`, comes to; nothing where a list of
/// extents has its brackets the wrong way round.
pub open spec fn load_outcome(path: Seq<char>, text: Seq<char>) -> Option<
    Result<IndexView, Seq<char>>,
> {
    match load_text(text) {
        Loading::Going(ix) => if ix.order.len() == 0 {
            Some(Err("no tensors found in "@ + path))
        } else {
            Some(Ok(ix))
        },
        Loading::Failed(e) => Some(Err(e)),
        Loading::Inverted => None,
    }
}

proof fn lemma_load_stops(pieces: Seq<Seq<char>>, n: int)
    requires
        0 <= n <= pieces.len(),
        !(load_objects(pieces.take(n)) is Going),
    ensures
        load_objects(pieces) == load_objects(pieces.take(n)),
    decreases pieces.len(),
{
    if n == pieces.len() {
        assert(pieces.take(n) =~= pieces);
    } else {
        assert(pieces.drop_last().take(n) =~= pieces.take(n));
        lemma_load_stops(pieces.drop_last(), n);
    }
}

/// An index that was read is consistent: the listed names are exactly those of
/// its tensors.
pub proof fn load_is_consistent(pieces: Seq<Seq<char>>)
    ensures
        load_objects(pieces) matches Loading::Going(ix) ==> ix.consistent(),
    decreases pieces.len(),
{
    if pieces.len() > 0 {
        load_is_consistent(pieces.drop_last());
        if let Loading::Going(before) = load_objects(pieces.drop_last()) {
            if let Loading::Going(after) = load_object(before, pieces.last()) {
                if after != before {
                    let t = after.tensors[after.order.last()];
                    assert(after == before.with(t));
                    assert forall|n: Seq<char>| #[trigger]
                        after.tensors.contains_key(n) implies after.order.contains(n)
                        && after.tensors[n].name == n by {
                        if n == t.name {
                            assert(after.order[before.order.len() as int] == n);
                        } else {
                            assert(before.tensors.contains_key(n));
                            let i = choose|i: int|
                                0 <= i < before.order.len() && before.order[i] == n;
                            assert(after.order[i] == n);
                        }
                    }
                }
            }
        }
    }
}

impl WeightIndex {
    /// Add a tensor at the end of the index.
    fn add_tensor(&mut self, t: TensorInfo)
        ensures
            final(self)@ == old(self)@.with(t@),
    {
        let ghost before = self@;
        let ghost tensors = self.tensors@;
        let ghost order = self.order@;
        let name = t.name.clone();
        let key = t.name.clone();
        self.order.push(name);
        self.tensors.insert(key, t);
        proof {
            assert(texts(self.order@) =~= texts(order).push(t.name@));
            assert(self.tensors@.map_values(|t: TensorInfo| t@) =~= tensors.map_values(
                |t: TensorInfo| t@,
            ).insert(t.name@, t@));
        }
    }

    /// Take in one object. `None`: its list of extents has the brackets the
    /// wrong way round.
    fn load_one(&mut self, piece: &[char]) -> (r: Option<Result<(), String>>)
        ensures
            match r {
                Some(Ok(_)) => load_object(old(self)@, piece@) == Loading::Going(final(self)@),
                Some(Err(e)) => load_object(old(self)@, piece@) == Loading::Failed(e@),
                None => load_object(old(self)@, piece@) == Loading::Inverted,
            },
    {
        let obj = match start_before_char(piece, '}') {
            Some(obj) => obj,
            None => {
                return Some(Ok(()));
            },
        };
        let name = json_str(obj, "name");
        let offset = json_usize(obj, "offset");
        let nbytes = json_usize(obj, "nbytes");
        match (name, offset, nbytes) {
            (Some(name), Some(offset), Some(nbytes)) => match json_usize_list(obj, "shape") {
                Some(Ok(shape)) => {
                    self.add_tensor(TensorInfo { name, shape, offset, nbytes });
                    Some(Ok(()))
                },
                Some(Err(e)) => Some(Err(e)),
                None => None,
            },
            _ => Some(Ok(())),
        }
    }

    /// Read the document. `None` where a list of extents has its brackets the
    /// wrong way round.
    fn read_document(path: &str, text: &str) -> (r: Option<Result<WeightIndex, String>>)
        ensures
            match r {
                Some(Ok(ix)) => load_outcome(path@, text@) == Some(
                    Ok::<IndexView, Seq<char>>(ix@),
                ) && ix@.consistent(),
                Some(Err(e)) => load_outcome(path@, text@) == Some(
                    Err::<IndexView, Seq<char>>(e@),
                ),
                None => load_outcome(path@, text@) is None,
            },
    {
        let all = chars_of(text);
        let pieces = split_at_char(all.as_slice(), '{');
        let mut ix = WeightIndex { tensors: StringHashMap::new(), order: Vec::new() };
        let ghost objs = views(pieces@).skip(1);
        assert(ix@ =~= IndexView::empty());
        let mut i: usize = 1;
        assert(objs.take(0) =~= Seq::empty());
        while i < pieces.len()
            invariant
                1 <= i <= pieces@.len(),
                objs == views(pieces@).skip(1),
                load_objects(objs.take(i - 1)) == Loading::Going(ix@),
                load_text(text@) == load_objects(objs),
            decreases pieces@.len() - i,
        {
            assert(objs.take(i as int).drop_last() =~= objs.take(i - 1));
            assert(objs.take(i as int).last() == pieces@[i as int]@);
            let ghost before = ix@;
            match ix.load_one(pieces[i]) {
                Some(Ok(_)) => {},
                Some(Err(e)) => {
                    proof {
                        lemma_load_stops(objs, i as int);
                    }
                    return Some(Err(e));
                },
                None => {
                    proof {
                        lemma_load_stops(objs, i as int);
                    }
                    return None;
                },
            }
            i += 1;
        }
        assert(objs.take(i - 1) =~= objs);
        proof {
            load_is_consistent(objs);
        }
        if ix.order.len() == 0 {
            return Some(Err(cat("no tensors found in ", path)));
        }
        Some(Ok(ix))
    }

    /// Read the index from the text of the document found at `path`.
    pub fn load(path: &str, text: &str) -> (r: Result<WeightIndex, String>)
        requires
            load_outcome(path@, text@) is Some,
        ensures
            match r {
                Ok(ix) => load_outcome(path@, text@) == Some(Ok::<IndexView, Seq<char>>(ix@))
                    && ix@.consistent(),
                Err(e) => load_outcome(path@, text@) == Some(Err::<IndexView, Seq<char>>(e@)),
            },
    {
        match WeightIndex::read_document(path, text) {
            Some(r) => r,
            None => Err(String::new()),
        }
    }

    /// Read the index where the document can be read at all: `None` exactly where
    /// a list of extents has its brackets the wrong way round.
    pub fn try_load(path: &str, text: &str) -> (r: Option<Result<WeightIndex, String>>)
        ensures
            match r {
                Some(Ok(ix)) => load_outcome(path@, text@) == Some(
                    Ok::<IndexView, Seq<char>>(ix@),
                ) && ix@.consistent(),
                Some(Err(e)) => load_outcome(path@, text@) == Some(
                    Err::<IndexView, Seq<char>>(e@),
                ),
                None => load_outcome(path@, text@) is None,
            },
    {
        if WeightIndex::read_document(path, text).is_some() {
            Some(WeightIndex::load(path, text))
        } else {
            None
        }
    }

    /// The tensor of that name.
    pub fn get(&self, name: &str) -> (r: Result<&TensorInfo, String>)
        ensures
            match r {
                Ok(t) => self@.tensors.contains_key(name@) && t@ == self@.tensors[name@]
                    && self.tensors@.contains_key(name@) && *t == self.tensors@[name@],
                Err(e) => !self@.tensors.contains_key(name@) && e@ == missing(name@),
            },
    {
        match self.tensors.get(name) {
            Some(t) => Ok(t),
            None => Err(cat("missing tensor in weight blob: ", name)),
        }
    }
}

// ---------------------------------------------------------------------------
// The blob
// ---------------------------------------------------------------------------

/// The bytes of the blob, wherever they live.
pub struct Blob<'a> {
    data: &'a [u8],
}

impl<'a> Blob<'a> {
    pub closed spec fn bytes(&self) -> Seq<u8> {
        self.data@
    }

    /// A blob over a mapping; an empty file cannot be mapped.
    pub fn map(data: &'a [u8]) -> (r: Result<Blob<'a>, String>)
        ensures
            match r {
                Ok(b) => data@.len() > 0 && b.bytes() == data@,
                Err(e) => data@.len() == 0 && e@ == "weight blob is empty"@,
            },
    {
        if data.len() == 0 {
            return Err("weight blob is empty".to_owned());
        }
        Ok(Blob { data })
    }

    /// A blob over bytes that were read.
    pub fn read(data: &'a [u8]) -> (b: Blob<'a>)
        ensures
            b.bytes() == data@,
    {
        Blob { data }
    }

    pub fn as_slice(&self) -> (r: &'a [u8])
        ensures
            r@ == self.bytes(),
    {
        self.data
    }

    pub fn len(&self) -> (n: usize)
        ensures
            n == self.bytes().len(),
    {
        self.data.len()
    }
}

/// The bit pattern of the little-endian word at byte `at`.
pub open spec fn word_at(bytes: Seq<u8>, at: int) -> u32 {
    (bytes[at] + bytes[at + 1] * 256 + bytes[at + 2] * 65536 + bytes[at + 3] * 16777216) as u32
}

// ---------------------------------------------------------------------------
// The store
// ---------------------------------------------------------------------------

/// Blob and index together.
pub struct WeightStore<'a> {
    pub index: WeightIndex,
    pub blob: Blob<'a>,
}

/// What a `WeightStore` holds.
pub ghost struct StoreView {
    pub index: IndexView,
    pub bytes: Seq<u8>,
}

impl<'a> View for WeightStore<'a> {
    type V = StoreView;

    open spec fn view(&self) -> StoreView {
        StoreView { index: self.index@, bytes: self.blob.bytes() }
    }
}

impl StoreView {
    pub open spec fn has(self, name: Seq<char>) -> bool {
        self.index.tensors.contains_key(name)
    }

    pub open spec fn tensor(self, name: Seq<char>) -> TensorView {
        self.index.tensors[name]
    }

    /// The bit patterns of a tensor's values.
    pub open spec fn bits(self, name: Seq<char>) -> Seq<u32> {
        let t = self.tensor(name);
        Seq::new(shape_product(t.shape), |i: int| word_at(self.bytes, t.offset + 4 * i))
    }
}

/// The complaint about a tensor that is not there.
pub open spec fn missing(name: Seq<char>) -> Seq<char> {
    "missing tensor in weight blob: "@ + name
}

/// A text as the standard library's debug format shows it: in double quotes,
/// with escapes.
pub uninterp spec fn str_debug(s: Seq<char>) -> Seq<char>;

/// The `Debug` format of `str`. The result is a function of the text.
#[verifier::external_body]
pub(crate) fn debug_text(s: &str) -> (r: String)
    ensures
        r@ == str_debug(s@),
{
    format!("{s:?}")
}

/// The numbers in brackets, separated by commas.
pub open spec fn list_items(v: Seq<usize>) -> Seq<char>
    decreases v.len(),
{
    if v.len() == 0 {
        Seq::empty()
    } else if v.len() == 1 {
        dec(v[0] as nat)
    } else {
        list_items(v.drop_last()) + ", "@ + dec(v.last() as nat)
    }
}

/// A tensor as a complaint about it shows it.
pub open spec fn tensor_debug(t: TensorView) -> Seq<char> {
    "TensorInfo { name: "@ + str_debug(t.name) + ", shape: ["@ + list_items(t.shape)
        + "], offset: "@ + dec(t.offset as nat) + ", nbytes: "@ + dec(t.nbytes as nat) + " }"@
}

/// What is wrong with a tensor in a blob of `len` bytes: it reaches past the
/// end, or its size is not that of its shape in FP32.
pub open spec fn tensor_fault(t: TensorView, name: Seq<char>, len: nat) -> Option<Seq<char>> {
    if t.offset + t.nbytes > len {
        Some(
            "tensor "@ + name + " at "@ + dec(t.offset as nat) + ".."@ + dec(
                (t.offset + t.nbytes) as nat,
            ) + " exceeds blob size "@ + dec(len),
        )
    } else if t.nbytes != shape_product(t.shape) * 4 {
        Some("tensor "@ + name + " is not FP32: "@ + tensor_debug(t))
    } else {
        None
    }
}

/// The first fault among the listed tensors, in their order.
pub open spec fn first_fault(
    tensors: Map<Seq<char>, TensorView>,
    order: Seq<Seq<char>>,
    len: nat,
) -> Option<Seq<char>>
    decreases order.len(),
{
    if order.len() == 0 {
        None
    } else {
        match first_fault(tensors, order.drop_last(), len) {
            Some(e) => Some(e),
            None => if tensors.contains_key(order.last()) {
                tensor_fault(tensors[order.last()], order.last(), len)
            } else {
                Some(missing(order.last()))
            },
        }
    }
}

proof fn lemma_first_fault(
    tensors: Map<Seq<char>, TensorView>,
    order: Seq<Seq<char>>,
    len: nat,
    n: int,
)
    requires
        0 <= n <= order.len(),
        first_fault(tensors, order.take(n), len) is Some,
    ensures
        first_fault(tensors, order, len) == first_fault(tensors, order.take(n), len),
    decreases order.len(),
{
    if n == order.len() {
        assert(order.take(n) =~= order);
    } else {
        assert(order.drop_last().take(n) =~= order.take(n));
        lemma_first_fault(tensors, order.drop_last(), len, n);
    }
}

proof fn lemma_no_fault(
    tensors: Map<Seq<char>, TensorView>,
    order: Seq<Seq<char>>,
    len: nat,
    i: int,
)
    requires
        first_fault(tensors, order, len) is None,
        0 <= i < order.len(),
    ensures
        tensors.contains_key(order[i]),
        tensor_fault(tensors[order[i]], order[i], len) is None,
    decreases order.len(),
{
    if i < order.len() - 1 {
        lemma_no_fault(tensors, order.drop_last(), len, i);
    }
}

/// The sizes of the listed tensors together, in bytes.
pub open spec fn sum_bytes(tensors: Map<Seq<char>, TensorView>, order: Seq<Seq<char>>) -> nat
    decreases order.len(),
{
    if order.len() == 0 {
        0
    } else {
        sum_bytes(tensors, order.drop_last()) + if tensors.contains_key(order.last()) {
            tensors[order.last()].nbytes as nat
        } else {
            0
        }
    }
}

proof fn lemma_sum_prefix(tensors: Map<Seq<char>, TensorView>, order: Seq<Seq<char>>, n: int)
    requires
        0 <= n <= order.len(),
    ensures
        sum_bytes(tensors, order.take(n)) <= sum_bytes(tensors, order),
    decreases order.len(),
{
    if n == order.len() {
        assert(order.take(n) =~= order);
    } else {
        assert(order.drop_last().take(n) =~= order.take(n));
        lemma_sum_prefix(tensors, order.drop_last(), n);
    }
}

/// The numbers separated by commas.
fn list_text(v: &Vec<usize>) -> (r: String)
    ensures
        r@ == list_items(v@),
{
    let mut out = String::new();
    let mut i: usize = 0;
    assert(v@.take(0) =~= Seq::empty());
    while i < v.len()
        invariant
            i <= v@.len(),
            out@ == list_items(v@.take(i as int)),
        decreases v@.len() - i,
    {
        assert(v@.take(i + 1).drop_last() =~= v@.take(i as int));
        if i == 0 {
            out = decimal_usize(v[0]);
        } else {
            out.append(", ");
            out.append(decimal_usize(v[i]).as_str());
        }
        i += 1;
    }
    assert(v@.take(i as int) =~= v@);
    out
}

impl TensorInfo {
    /// The tensor as a complaint about it shows it.
    pub fn debug_string(&self) -> (r: String)
        ensures
            r@ == tensor_debug(self@),
    {
        let mut out = cat("TensorInfo { name: ", debug_text(self.name.as_str()).as_str());
        out.append(", shape: [");
        out.append(list_text(&self.shape).as_str());
        out.append("], offset: ");
        out.append(decimal_usize(self.offset).as_str());
        out.append(", nbytes: ");
        out.append(decimal_usize(self.nbytes).as_str());
        out.append(" }");
        out
    }

    /// What is wrong with the tensor in a blob of `len` bytes.
    fn fault(&self, name: &str, len: usize) -> (r: Option<String>)
        ensures
            match r {
                Some(e) => tensor_fault(self@, name@, len as nat) == Some(e@),
                None => tensor_fault(self@, name@, len as nat) is None,
            },
    {
        let end: u128 = self.offset as u128 + self.nbytes as u128;
        if end > len as u128 {
            let mut out = cat("tensor ", name);
            out.append(" at ");
            out.append(decimal_usize(self.offset).as_str());
            out.append("..");
            out.append(decimal(end).as_str());
            out.append(" exceeds blob size ");
            out.append(decimal_usize(len).as_str());
            return Some(out);
        }
        let sized = match count_values(&self.shape) {
            Some(n) => self.nbytes as u128 == n as u128 * 4,
            None => false,
        };
        if !sized {
            let mut out = cat("tensor ", name);
            out.append(" is not FP32: ");
            out.append(self.debug_string().as_str());
            return Some(out);
        }
        None
    }
}

/// What opening a store comes to: the index, or the first complaint about the
/// document, the blob or a tensor.
pub open spec fn open_outcome(
    path: Seq<char>,
    text: Seq<char>,
    data: Seq<u8>,
    map: bool,
) -> Option<Result<IndexView, Seq<char>>> {
    match load_outcome(path, text) {
        Some(Ok(ix)) => if map && data.len() == 0 {
            Some(Err("weight blob is empty"@))
        } else {
            match first_fault(ix.tensors, ix.order, data.len()) {
                Some(e) => Some(Err(e)),
                None => Some(Ok(ix)),
            }
        },
        other => other,
    }
}

impl<'a> WeightStore<'a> {
    /// Every listed tensor sits inside the blob and has the size of its shape.
    pub open spec fn valid(&self) -> bool {
        &&& first_fault(self.index@.tensors, self.index@.order, self.blob.bytes().len()) is None
        &&& self.index@.consistent()
    }

    /// Every tensor must sit inside the blob and match its declared size.
    fn validate(&self) -> (r: Result<(), String>)
        ensures
            match r {
                Ok(_) => first_fault(
                    self.index@.tensors,
                    self.index@.order,
                    self.blob.bytes().len(),
                ) is None,
                Err(e) => first_fault(
                    self.index@.tensors,
                    self.index@.order,
                    self.blob.bytes().len(),
                ) == Some(e@),
            },
    {
        let ghost tensors = self.index@.tensors;
        let ghost order = self.index@.order;
        let ghost len = self.blob.bytes().len();
        let mut i: usize = 0;
        assert(order.take(0) =~= Seq::empty());
        while i < self.index.order.len()
            invariant
                i <= self.index.order@.len(),
                tensors == self.index@.tensors,
                order == self.index@.order,
                len == self.blob.bytes().len(),
                first_fault(tensors, order.take(i as int), len) is None,
            decreases self.index.order@.len() - i,
        {
            let name = self.index.order[i].as_str();
            assert(order.take(i + 1).drop_last() =~= order.take(i as int));
            assert(order.take(i + 1).last() == name@);
            match self.index.get(name) {
                Ok(t) => match t.fault(name, self.blob.len()) {
                    Some(e) => {
                        proof {
                            lemma_first_fault(tensors, order, len, i + 1);
                        }
                        return Err(e);
                    },
                    None => {},
                },
                Err(e) => {
                    proof {
                        lemma_first_fault(tensors, order, len, i + 1);
                    }
                    return Err(e);
                },
            }
            i += 1;
        }
        assert(order.take(i as int) =~= order);
        Ok(())
    }

    /// Read the index from the document `text` found at `path` and join it with the
    /// blob `data`, which is a mapping where `map` says so.
    pub fn open(path: &str, text: &str, data: &'a [u8], map: bool) -> (r: Result<
        WeightStore<'a>,
        String,
    >)
        requires
            load_outcome(path@, text@) is Some,
        ensures
            match r {
                Ok(store) => open_outcome(path@, text@, data@, map) == Some(
                    Ok::<IndexView, Seq<char>>(store.index@),
                ) && store.blob.bytes() == data@ && store.valid(),
                Err(e) => open_outcome(path@, text@, data@, map) == Some(
                    Err::<IndexView, Seq<char>>(e@),
                ),
            },
    {
        let index = match WeightIndex::load(path, text) {
            Ok(index) => index,
            Err(e) => {
                return Err(e);
            },
        };
        let blob = if map {
            match Blob::map(data) {
                Ok(blob) => blob,
                Err(e) => {
                    return Err(e);
                },
            }
        } else {
            Blob::read(data)
        };
        let store = WeightStore { index, blob };
        match store.validate() {
            Ok(_) => Ok(store),
            Err(e) => Err(e),
        }
    }

    /// Open the store where the document can be read at all: `None` exactly where a
    /// list of extents has its brackets the wrong way round.
    pub fn try_open(path: &str, text: &str, data: &'a [u8], map: bool) -> (r: Option<
        Result<WeightStore<'a>, String>,
    >)
        ensures
            match r {
                Some(Ok(store)) => open_outcome(path@, text@, data@, map) == Some(
                    Ok::<IndexView, Seq<char>>(store.index@),
                ) && store.blob.bytes() == data@ && store.valid(),
                Some(Err(e)) => open_outcome(path@, text@, data@, map) == Some(
                    Err::<IndexView, Seq<char>>(e@),
                ),
                None => open_outcome(path@, text@, data@, map) is None,
            },
    {
        if WeightIndex::try_load(path, text).is_some() {
            Some(WeightStore::open(path, text, data, map))
        } else {
            None
        }
    }

    /// Look up a tensor's shape and place without copying its data.
    pub fn info(&self, name: &str) -> (r: Result<&TensorInfo, String>)
        ensures
            match r {
                Ok(t) => self@.has(name@) && t@ == self@.tensor(name@),
                Err(e) => !self@.has(name@) && e@ == missing(name@),
            },
    {
        self.index.get(name)
    }

    /// The sizes of all listed tensors together.
    pub fn total_bytes(&self) -> (n: usize)
        requires
            sum_bytes(self.index@.tensors, self.index@.order) <= usize::MAX,
        ensures
            n == sum_bytes(self.index@.tensors, self.index@.order),
    {
        let ghost tensors = self.index@.tensors;
        let ghost order = self.index@.order;
        let mut n: usize = 0;
        let mut i: usize = 0;
        assert(order.take(0) =~= Seq::empty());
        while i < self.index.order.len()
            invariant
                i <= self.index.order@.len(),
                tensors == self.index@.tensors,
                order == self.index@.order,
                sum_bytes(tensors, order) <= usize::MAX,
                n == sum_bytes(tensors, order.take(i as int)),
            decreases self.index.order@.len() - i,
        {
            let name = self.index.order[i].as_str();
            assert(order.take(i + 1).drop_last() =~= order.take(i as int));
            assert(order.take(i + 1).last() == name@);
            proof {
                lemma_sum_prefix(tensors, order, i + 1);
            }
            match self.index.get(name) {
                Ok(t) => n = n + t.nbytes,
                Err(_) => {},
            }
            i += 1;
        }
        assert(order.take(i as int) =~= order);
        n
    }

    /// Copy a tensor out of the blob, as bit patterns.
    pub fn f32_bits(&self, name: &str) -> (r: Result<Vec<u32>, String>)
        requires
            self.valid(),
        ensures
            match r {
                Ok(v) => self@.has(name@) && v@ == self@.bits(name@),
                Err(e) => !self@.has(name@) && e@ == missing(name@),
            },
    {
        let t = match self.index.get(name) {
            Ok(t) => t,
            Err(e) => {
                return Err(e);
            },
        };
        proof {
            self.tensor_inside(name@);
        }
        let data = self.blob.as_slice();
        let size = data.len();
        let n = t.numel();
        let base = t.offset;
        let mut out: Vec<u32> = Vec::new();
        let mut i: usize = 0;
        while i < n
            invariant
                i <= n,
                data@ == self.blob.bytes(),
                base + 4 * n <= size == data@.len(),
                out@.len() == i,
                forall|j: int| 0 <= j < i ==> #[trigger] out@[j] == word_at(data@, base + 4 * j),
            decreases n - i,
        {
            let at: usize = base + 4 * i;
            let word: u32 = data[at] as u32 + data[at + 1] as u32 * 256 + data[at + 2] as u32
                * 65536 + data[at + 3] as u32 * 16777216;
            out.push(word);
            i += 1;
        }
        Ok(out)
    }

    /// In a valid store every tensor lies inside the blob and is as long as its
    /// shape says.
    pub proof fn tensor_inside(&self, name: Seq<char>)
        requires
            self.valid(),
            self.index@.tensors.contains_key(name),
        ensures
            ({
                let t = self.index@.tensors[name];
                &&& t.offset + t.nbytes <= self.blob.bytes().len()
                &&& t.nbytes == shape_product(t.shape) * 4
                &&& t.name == name
            }),
    {
        let order = self.index@.order;
        let i = choose|i: int| 0 <= i < order.len() && order[i] == name;
        lemma_no_fault(self.index@.tensors, order, self.blob.bytes().len(), i);
    }
}

// ---------------------------------------------------------------------------
// Whole stores
// ---------------------------------------------------------------------------

/// A tensor lies inside a blob of `len` bytes and takes four bytes for each of its
/// values.
pub open spec fn lies_whole(t: TensorView, len: nat) -> bool {
    t.offset + t.nbytes <= len && t.nbytes == 4 * shape_product(t.shape)
}

/// A store has no fault exactly where every tensor that its index lists is there, lies
/// inside the blob and has the size of its shape.
pub proof fn faultless_stores_are_whole(
    tensors: Map<Seq<char>, TensorView>,
    order: Seq<Seq<char>>,
    len: nat,
)
    ensures
        first_fault(tensors, order, len) is None <==> forall|i: int|
            0 <= i < order.len() ==> tensors.contains_key(#[trigger] order[i]) && lies_whole(
                tensors[order[i]],
                len,
            ),
    decreases order.len(),
{
    if order.len() > 0 {
        let before = order.drop_last();
        faultless_stores_are_whole(tensors, before, len);
        let n = order.len() - 1;
        if first_fault(tensors, order, len) is None {
            assert forall|i: int| 0 <= i < order.len() implies tensors.contains_key(
                #[trigger] order[i],
            ) && lies_whole(tensors[order[i]], len) by {
                lemma_no_fault(tensors, order, len, i);
            }
        }
        if forall|i: int|
            0 <= i < order.len() ==> tensors.contains_key(#[trigger] order[i]) && lies_whole(
                tensors[order[i]],
                len,
            ) {
            assert forall|i: int| 0 <= i < before.len() implies tensors.contains_key(
                #[trigger] before[i],
            ) && lies_whole(tensors[before[i]], len) by {
                assert(before[i] == order[i]);
            }
            assert(lies_whole(tensors[order[n]], len));
        }
    }
}

/// The values of a tensor are the words of its bytes, one after the other, the least
/// significant byte first.
pub proof fn values_are_little_endian(store: StoreView, name: Seq<char>, i: int)
    requires
        0 <= i < shape_product(store.tensor(name).shape),
    ensures
        ({
            let v = store.bits(name)[i] as int;
            let at = store.tensor(name).offset + 4 * i;
            &&& store.bits(name).len() == shape_product(store.tensor(name).shape)
            &&& v % 256 == store.bytes[at]
            &&& v / 256 % 256 == store.bytes[at + 1]
            &&& v / 65536 % 256 == store.bytes[at + 2]
            &&& v / 16777216 == store.bytes[at + 3]
        }),
{
}

} // verus!

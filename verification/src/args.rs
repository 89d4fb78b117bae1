//! The command line.

use vstd::prelude::*;

use crate::text::{cat, chars_of, part, same_text, string_of};

verus! {

/// The options that take a value.
#[derive(Clone, Copy, PartialEq, Eq, Structural, Debug)]
pub enum Slot {
    Image,
    Mask,
    Output,
    Weights,
    Index,
}

/// The name of an option.
pub open spec fn slot_name(s: Slot) -> Seq<char> {
    match s {
        Slot::Image => "--image"@,
        Slot::Mask => "--mask"@,
        Slot::Output => "--output"@,
        Slot::Weights => "--weights"@,
        Slot::Index => "--index"@,
    }
}

/// The option that an argument names.
pub open spec fn slot_of(a: Seq<char>) -> Option<Slot> {
    if a == "--image"@ {
        Some(Slot::Image)
    } else if a == "--mask"@ {
        Some(Slot::Mask)
    } else if a == "--output"@ {
        Some(Slot::Output)
    } else if a == "--weights"@ {
        Some(Slot::Weights)
    } else if a == "--index"@ {
        Some(Slot::Index)
    } else {
        None
    }
}

/// What has been given so far.
pub ghost struct Given {
    pub image: Option<Seq<char>>,
    pub mask: Option<Seq<char>>,
    pub output: Option<Seq<char>>,
    pub weights: Option<Seq<char>>,
    pub index: Option<Seq<char>>,
    pub force_cpu: bool,
    pub force_gpu: bool,
}

impl Given {
    pub open spec fn nothing() -> Given {
        Given {
            image: None,
            mask: None,
            output: None,
            weights: None,
            index: None,
            force_cpu: false,
            force_gpu: false,
        }
    }

    /// With a value for an option: the last one given counts.
    pub open spec fn with(self, s: Slot, v: Seq<char>) -> Given {
        match s {
            Slot::Image => Given { image: Some(v), ..self },
            Slot::Mask => Given { mask: Some(v), ..self },
            Slot::Output => Given { output: Some(v), ..self },
            Slot::Weights => Given { weights: Some(v), ..self },
            Slot::Index => Given { index: Some(v), ..self },
        }
    }
}

/// How far reading the arguments has come.
pub ghost enum Scan {
    /// The next argument is an option.
    Ready(Given),
    /// The next argument is the value of this option.
    Wants(Given, Slot),
    /// Help was asked for.
    Help,
    Failed(Seq<char>),
}

/// Read one more argument.
pub open spec fn scan_one(s: Scan, a: Seq<char>) -> Scan {
    match s {
        Scan::Wants(g, slot) => Scan::Ready(g.with(slot, a)),
        Scan::Ready(g) => if slot_of(a) is Some {
            Scan::Wants(g, slot_of(a)->0)
        } else if a == "--cpu"@ {
            Scan::Ready(Given { force_cpu: true, ..g })
        } else if a == "--gpu"@ {
            Scan::Ready(Given { force_gpu: true, ..g })
        } else if a == "-h"@ || a == "--help"@ {
            Scan::Help
        } else {
            Scan::Failed("unknown argument "@ + a)
        },
        stopped => stopped,
    }
}

/// Read the arguments from the left.
pub open spec fn scan(args: Seq<String>) -> Scan
    decreases args.len(),
{
    if args.len() == 0 {
        Scan::Ready(Given::nothing())
    } else {
        scan_one(scan(args.drop_last()), args.last()@)
    }
}

/// The single dash, which stands for a standard stream.
pub open spec fn is_dash(a: Seq<char>) -> bool {
    a == "-"@
}

/// The complaint about what was given, if there is any.
pub open spec fn complaint(g: Given) -> Option<Seq<char>> {
    if g.image is None {
        Some("--image is required"@)
    } else if g.mask is None {
        Some("--mask is required"@)
    } else if g.output is None {
        Some("--output is required"@)
    } else if is_dash(g.image->0) && is_dash(g.mask->0) {
        Some("--image and --mask cannot both be '-' (stdin has only one stream)"@)
    } else {
        None
    }
}

/// With the index beside the weights, where weights are given and no index is.
pub open spec fn completed(g: Given) -> Given {
    match (g.weights, g.index) {
        (Some(w), None) => Given { index: Some(with_json(w)), ..g },
        _ => g,
    }
}

/// What to run on. The weights are absent where they are to be searched for, and
/// the index only where they are and it is to lie beside them.
pub struct Args {
    pub image: String,
    pub mask: String,
    pub output: String,
    pub weights: Option<String>,
    pub index: Option<String>,
    pub force_cpu: bool,
    pub force_gpu: bool,
}

/// The text in an option's value.
pub open spec fn text_in(v: Option<String>) -> Option<Seq<char>> {
    match v {
        Some(s) => Some(s@),
        None => None,
    }
}

impl View for Args {
    type V = Given;

    open spec fn view(&self) -> Given {
        Given {
            image: Some(self.image@),
            mask: Some(self.mask@),
            output: Some(self.output@),
            weights: text_in(self.weights),
            index: text_in(self.index),
            force_cpu: self.force_cpu,
            force_gpu: self.force_gpu,
        }
    }
}

/// What a command line asks for.
pub enum Request {
    Help,
    Run(Args),
}

/// What a command line comes to: a request or a complaint. Help wins over
/// everything that follows it, and an unknown argument over everything that is
/// missing.
pub open spec fn answers(r: Result<Request, String>, args: Seq<String>) -> bool {
    match scan(args) {
        Scan::Help => r == Ok::<Request, String>(Request::Help),
        Scan::Failed(e) => r matches Err(m) && m@ == e,
        Scan::Wants(_, s) => r matches Err(m) && m@ == slot_name(s) + " needs a value"@,
        Scan::Ready(g) => match complaint(g) {
            Some(e) => r matches Err(m) && m@ == e,
            None => r matches Ok(Request::Run(a)) && a@ == completed(g),
        },
    }
}

struct Partial {
    image: Option<String>,
    mask: Option<String>,
    output: Option<String>,
    weights: Option<String>,
    index: Option<String>,
    force_cpu: bool,
    force_gpu: bool,
}

impl Partial {
    spec fn given(&self) -> Given {
        Given {
            image: text_in(self.image),
            mask: text_in(self.mask),
            output: text_in(self.output),
            weights: text_in(self.weights),
            index: text_in(self.index),
            force_cpu: self.force_cpu,
            force_gpu: self.force_gpu,
        }
    }

    fn set(&mut self, slot: Slot, v: String)
        ensures
            final(self).given() == old(self).given().with(slot, v@),
    {
        match slot {
            Slot::Image => {
                self.image = Some(v);
            },
            Slot::Mask => {
                self.mask = Some(v);
            },
            Slot::Output => {
                self.output = Some(v);
            },
            Slot::Weights => {
                self.weights = Some(v);
            },
            Slot::Index => {
                self.index = Some(v);
            },
        }
    }

    fn finish(self) -> (r: Result<Args, String>)
        ensures
            match complaint(self.given()) {
                Some(e) => r matches Err(m) && m@ == e,
                None => r matches Ok(a) && a@ == completed(self.given()),
            },
    {
        let image = match self.image {
            Some(s) => s,
            None => {
                return Err("--image is required".to_owned());
            },
        };
        let mask = match self.mask {
            Some(s) => s,
            None => {
                return Err("--mask is required".to_owned());
            },
        };
        let output = match self.output {
            Some(s) => s,
            None => {
                return Err("--output is required".to_owned());
            },
        };
        if means_stream(image.as_str()) && means_stream(mask.as_str()) {
            return Err(
                "--image and --mask cannot both be '-' (stdin has only one stream)".to_owned(),
            );
        }
        let index = match (&self.weights, self.index) {
            (_, Some(i)) => Some(i),
            (Some(w), None) => Some(index_path(w.as_str())),
            (None, None) => None,
        };
        Ok(
            Args {
                image,
                mask,
                output,
                weights: self.weights,
                index,
                force_cpu: self.force_cpu,
                force_gpu: self.force_gpu,
            },
        )
    }
}

fn find_slot(a: &str) -> (r: Option<Slot>)
    ensures
        r == slot_of(a@),
{
    if same_text(a, "--image") {
        Some(Slot::Image)
    } else if same_text(a, "--mask") {
        Some(Slot::Mask)
    } else if same_text(a, "--output") {
        Some(Slot::Output)
    } else if same_text(a, "--weights") {
        Some(Slot::Weights)
    } else if same_text(a, "--index") {
        Some(Slot::Index)
    } else {
        None
    }
}

fn name_of(s: Slot) -> (r: &'static str)
    ensures
        r@ == slot_name(s),
{
    match s {
        Slot::Image => "--image",
        Slot::Mask => "--mask",
        Slot::Output => "--output",
        Slot::Weights => "--weights",
        Slot::Index => "--index",
    }
}

proof fn lemma_scan_stops(args: Seq<String>, n: int)
    requires
        0 <= n <= args.len(),
        scan(args.take(n)) is Help || scan(args.take(n)) is Failed,
    ensures
        scan(args) == scan(args.take(n)),
    decreases args.len() - n,
{
    if n == args.len() {
        assert(args.take(n) =~= args);
    } else {
        assert(args.take(n + 1).drop_last() =~= args.take(n));
        lemma_scan_stops(args, n + 1);
    }
}

/// Read the arguments that follow the program's name.
pub fn parse_args(args: &Vec<String>) -> (r: Result<Request, String>)
    ensures
        answers(r, args@),
{
    let mut p = Partial {
        image: None,
        mask: None,
        output: None,
        weights: None,
        index: None,
        force_cpu: false,
        force_gpu: false,
    };
    let mut wants: Option<Slot> = None;
    let mut i: usize = 0;
    assert(args@.take(0) =~= Seq::<String>::empty());
    while i < args.len()
        invariant
            i <= args.len(),
            scan(args@.take(i as int)) == match wants {
                Some(s) => Scan::Wants(p.given(), s),
                None => Scan::Ready(p.given()),
            },
        decreases args.len() - i,
    {
        let a = args[i].as_str();
        let ghost next = args@.take(i + 1);
        assert(next.drop_last() =~= args@.take(i as int));
        assert(next.last() == args@[i as int]);
        match wants {
            Some(s) => {
                p.set(s, a.to_owned());
                wants = None;
            },
            None => {
                let slot = find_slot(a);
                if slot.is_some() {
                    wants = slot;
                } else if same_text(a, "--cpu") {
                    p.force_cpu = true;
                } else if same_text(a, "--gpu") {
                    p.force_gpu = true;
                } else if same_text(a, "-h") || same_text(a, "--help") {
                    proof {
                        lemma_scan_stops(args@, i + 1);
                    }
                    return Ok(Request::Help);
                } else {
                    proof {
                        lemma_scan_stops(args@, i + 1);
                    }
                    return Err(cat("unknown argument ", a));
                }
            },
        }
        i += 1;
    }
    assert(args@.take(i as int) =~= args@);
    match wants {
        Some(s) => Err(cat(name_of(s), " needs a value")),
        None => match p.finish() {
            Ok(a) => Ok(Request::Run(a)),
            Err(e) => Err(e),
        },
    }
}

/// Whether a path stands for a standard stream: `-` reads an input from standard
/// input, and writes the output to standard output.
pub fn means_stream(path: &str) -> (r: bool)
    ensures
        r == is_dash(path@),
{
    same_text(path, "-")
}

/// Help wins: once it has been asked for, nothing that follows matters.
pub proof fn help_wins(args: Seq<String>, n: int)
    requires
        0 <= n <= args.len(),
        scan(args.take(n)) is Help,
    ensures
        scan(args) is Help,
{
    lemma_scan_stops(args, n);
}

// ---------------------------------------------------------------------------
// The path of the index
// ---------------------------------------------------------------------------

/// Where the last component of a path ends: slashes behind it do not count, nor
/// does a `.` behind a slash.
pub open spec fn path_end(p: Seq<char>) -> int
    decreases p.len(),
{
    if p.len() > 0 && p.last() == '/' {
        path_end(p.drop_last())
    } else if p.len() > 1 && p.last() == '.' && p[p.len() - 2] == '/' {
        path_end(p.drop_last())
    } else {
        p.len() as int
    }
}

/// Where the part of a text behind its last slash begins.
pub open spec fn name_start(p: Seq<char>) -> int
    decreases p.len(),
{
    if p.len() == 0 || p.last() == '/' {
        p.len() as int
    } else {
        name_start(p.drop_last())
    }
}

/// Where the stem of a file name ends: at its last dot, but for one at the start.
pub open spec fn stem_end(name: Seq<char>, k: int) -> int
    decreases k,
{
    if k <= 1 {
        name.len() as int
    } else if name[k - 1] == '.' {
        k - 1
    } else {
        stem_end(name, k - 1)
    }
}

/// A path with the extension of its file name replaced by `json`, or with `json`
/// added where there is none. A path that does not end in a name stays as it is.
pub open spec fn with_json(p: Seq<char>) -> Seq<char> {
    let q = p.take(path_end(p));
    let start = name_start(q);
    let name = q.skip(start);
    if name.len() == 0 || name == "."@ || name == ".."@ {
        p
    } else {
        p.take(start + stem_end(name, name.len() as int)) + ".json"@
    }
}

proof fn lemma_path_end(p: Seq<char>)
    ensures
        0 <= path_end(p) <= p.len(),
    decreases p.len(),
{
    if p.len() > 0 {
        lemma_path_end(p.drop_last());
    }
}

/// The path of the index that belongs to the weights at `weights`: the same file
/// name with the extension `json`.
pub fn index_path(weights: &str) -> (r: String)
    ensures
        r@ == with_json(weights@),
{
    let p = chars_of(weights);
    let mut end: usize = p.len();
    assert(p@.take(end as int) =~= p@);
    while end > 0 && (p[end - 1] == '/' || (end > 1 && p[end - 1] == '.' && p[end - 2] == '/'))
        invariant
            end <= p@.len(),
            path_end(p@) == path_end(p@.take(end as int)),
        decreases end,
    {
        assert(p@.take(end as int).drop_last() =~= p@.take(end - 1));
        end -= 1;
    }
    let ghost q = p@.take(end as int);
    assert(path_end(q) == end);
    let mut start: usize = end;
    assert(q.take(start as int) =~= q);
    while start > 0 && p[start - 1] != '/'
        invariant
            start <= end <= p@.len(),
            q == p@.take(end as int),
            name_start(q) == name_start(q.take(start as int)),
        decreases start,
    {
        assert(q.take(start as int).drop_last() =~= q.take(start - 1));
        start -= 1;
    }
    assert(name_start(q.take(start as int)) == start);
    let name = part(p.as_slice(), start, end);
    assert(name@ =~= q.skip(start as int));
    let text = string_of(name);
    if name.len() == 0 || same_text(text.as_str(), ".") || same_text(text.as_str(), "..") {
        return weights.to_owned();
    }
    let mut k: usize = name.len();
    while k > 1 && name[k - 1] != '.'
        invariant
            k <= name@.len(),
            stem_end(name@, name@.len() as int) == stem_end(name@, k as int),
        decreases k,
    {
        k -= 1;
    }
    let stem = if k > 1 {
        k - 1
    } else {
        name.len()
    };
    let whole = string_of(part(p.as_slice(), 0, start + stem));
    assert(p@.subrange(0, start + stem) =~= p@.take(start + stem));
    cat(whole.as_str(), ".json")
}

/// The index lies where the weights do: only the end of the file name differs.
pub proof fn index_lies_beside(p: Seq<char>)
    ensures
        ({
            let q = p.take(path_end(p));
            let start = name_start(q);
            0 <= start <= path_end(p) <= p.len() && with_json(p).len() >= start && with_json(
                p,
            ).take(start) == p.take(start)
        }),
{
    lemma_path_end(p);
    let q = p.take(path_end(p));
    lemma_name_start(q);
    let start = name_start(q);
    let name = q.skip(start);
    lemma_stem_end(name, name.len() as int);
    assert(with_json(p).take(start) =~= p.take(start));
}

proof fn lemma_name_start(p: Seq<char>)
    ensures
        0 <= name_start(p) <= p.len(),
    decreases p.len(),
{
    if p.len() > 0 {
        lemma_name_start(p.drop_last());
    }
}

proof fn lemma_stem_end(name: Seq<char>, k: int)
    requires
        k <= name.len(),
    ensures
        0 <= stem_end(name, k) <= name.len(),
    decreases k,
{
    if k > 1 {
        lemma_stem_end(name, k - 1);
    }
}

proof fn lemma_name_starts(dir: Seq<char>, name: Seq<char>)
    requires
        dir.len() == 0 || dir.last() == '/',
        !name.contains('/'),
    ensures
        name_start(dir + name) == dir.len(),
    decreases name.len(),
{
    let p = dir + name;
    if name.len() == 0 {
        assert(p =~= dir);
    } else {
        assert(name.contains(name.last()));
        assert(p.last() == name.last());
        assert(p.drop_last() =~= dir + name.drop_last());
        assert forall|c: char| name.drop_last().contains(c) implies name.contains(c) by {
            let i = choose|i: int| 0 <= i < name.drop_last().len() && name.drop_last()[i] == c;
            assert(name[i] == c);
        }
        lemma_name_starts(dir, name.drop_last());
    }
}

proof fn lemma_stem_ends(name: Seq<char>, n: int, k: int)
    requires
        0 < n < k <= name.len(),
        name[n] == '.',
        forall|i: int| n < i < name.len() ==> #[trigger] name[i] != '.',
    ensures
        stem_end(name, k) == n,
    decreases k,
{
    if k > n + 1 {
        assert(name[k - 1] != '.');
        lemma_stem_ends(name, n, k - 1);
    }
}

/// A file name with an extension has it replaced, and keeps its directory and its stem.
pub proof fn extension_is_replaced(dir: Seq<char>, stem: Seq<char>, ext: Seq<char>)
    requires
        dir.len() == 0 || dir.last() == '/',
        stem.len() > 0,
        !stem.contains('/'),
        ext.len() > 0,
        !ext.contains('/'),
        !ext.contains('.'),
    ensures
        with_json(dir + stem + "."@ + ext) == dir + stem + ".json"@,
{
    reveal_strlit(".");
    reveal_strlit("..");
    let p = dir + stem + "."@ + ext;
    let name = stem + "."@ + ext;
    assert(p =~= dir + name);
    assert(ext.contains(ext.last()));
    assert(p.last() == ext.last());
    assert(path_end(p) == p.len());
    assert(p.take(path_end(p)) =~= p);
    assert(!name.contains('/')) by {
        if name.contains('/') {
            let i = choose|i: int| 0 <= i < name.len() && name[i] == '/';
            if i < stem.len() {
                assert(stem.contains(stem[i]));
            } else if i > stem.len() {
                assert(ext.contains(ext[i - stem.len() - 1]));
            }
        }
    }
    lemma_name_starts(dir, name);
    assert(p.skip(dir.len() as int) =~= name);
    assert(name.last() == ext.last());
    assert(name.len() >= 3);
    assert forall|i: int| stem.len() < i < name.len() implies #[trigger] name[i] != '.' by {
        assert(ext.contains(ext[i - stem.len() - 1]));
    }
    lemma_stem_ends(name, stem.len() as int, name.len() as int);
    assert(p.take((dir.len() + stem.len()) as int) =~= dir + stem);
}

/// A run has an image, a mask and an output, of which the first two do not both come
/// from the standard input, and takes them as they were given; and it has an index
/// where it has weights: the one that was given, or else the one beside them.
pub proof fn runs_have_what_they_need(args: Seq<String>, a: Args)
    requires
        answers(Ok(Request::Run(a)), args),
    ensures
        scan(args) matches Scan::Ready(g) && {
            &&& g.image == Some(a.image@)
            &&& g.mask == Some(a.mask@)
            &&& g.output == Some(a.output@)
            &&& !(a.image@ == "-"@ && a.mask@ == "-"@)
            &&& g.weights == text_in(a.weights)
            &&& g.force_cpu == a.force_cpu
            &&& g.force_gpu == a.force_gpu
            &&& g.index is Some ==> g.index == text_in(a.index)
            &&& a.weights is Some ==> a.index is Some
            &&& g.index is None ==> text_in(a.index) == match g.weights {
                Some(w) => Some(with_json(w)),
                None => None,
            }
        },
{
}

/// Whatever lacks an image, a mask or an output is refused, with the name of the first
/// that it lacks.
pub proof fn lacking_is_refused(args: Seq<String>, g: Given, r: Result<Request, String>)
    requires
        scan(args) == Scan::Ready(g),
        answers(r, args),
    ensures
        g.image is None ==> refused(r, "--image is required"@),
        g.image is Some && g.mask is None ==> refused(r, "--mask is required"@),
        g.image is Some && g.mask is Some && g.output is None ==> refused(
            r,
            "--output is required"@,
        ),
        g.image is Some && g.mask is Some && g.output is Some && !(g.image->0 == "-"@ && g.mask->0
            == "-"@) ==> r matches Ok(Request::Run(_)),
{
}

/// A command line is refused with this complaint.
pub open spec fn refused(r: Result<Request, String>, complaint: Seq<char>) -> bool {
    r matches Err(m) && m@ == complaint
}

// ---------------------------------------------------------------------------
// Where the weights are looked for
// ---------------------------------------------------------------------------

/// How many directories the search visits on its way up.
pub const SEARCH_LEVELS: usize = 6;

/// A place to look for the weights: so many levels above the executable's
/// directory, there or in its `models` directory.
#[derive(Clone, Copy, PartialEq, Eq, Structural, Debug)]
pub struct Place {
    pub up: usize,
    pub in_models: bool,
}

/// How many levels there are to visit where `parents` directories lie above the
/// executable's own.
pub open spec fn levels(parents: nat) -> nat {
    if parents + 1 < SEARCH_LEVELS {
        parents + 1
    } else {
        SEARCH_LEVELS as nat
    }
}

/// The places in the order in which they are tried: beside the executable and in
/// `models` there, and then both at every level, the executable's own first.
pub open spec fn places(parents: nat) -> Seq<Place> {
    Seq::new(
        2 + 2 * levels(parents),
        |k: int|
            Place {
                up: if k < 2 {
                    0
                } else {
                    ((k - 2) / 2) as usize
                },
                in_models: k % 2 == 1,
            },
    )
}

/// List the places to try for the weights, where `parents` directories lie above
/// the one that holds the executable.
pub fn weight_places(parents: usize) -> (r: Vec<Place>)
    ensures
        r@ == places(parents as nat),
{
    let mut out: Vec<Place> = vec![
        Place { up: 0, in_models: false },
        Place { up: 0, in_models: true },
    ];
    let n: usize = if parents < SEARCH_LEVELS - 1 {
        parents + 1
    } else {
        SEARCH_LEVELS
    };
    let ghost full = places(parents as nat);
    assert(out@ =~= full.take(2));
    let mut up: usize = 0;
    while up < n
        invariant
            up <= n,
            n == levels(parents as nat),
            n <= SEARCH_LEVELS,
            full == places(parents as nat),
            out@ == full.take(2 + 2 * up),
        decreases n - up,
    {
        out.push(Place { up, in_models: false });
        out.push(Place { up, in_models: true });
        assert(out@ =~= full.take(2 + 2 * (up + 1)));
        up += 1;
    }
    assert(full.take(2 + 2 * n) =~= full);
    out
}

// ---------------------------------------------------------------------------
// Options
// ---------------------------------------------------------------------------

/// The argument behind an option becomes its value and nothing else changes, whatever
/// was given before, and the last value given counts.
pub proof fn values_go_to_their_options(args: Seq<String>, g: Given, a: String, v: String)
    requires
        scan(args) == Scan::Ready(g),
    ensures
        ({
            let r = scan(args.push(a).push(v));
            &&& a@ == "--image"@ ==> r == Scan::Ready(Given { image: Some(v@), ..g })
            &&& a@ == "--mask"@ ==> r == Scan::Ready(Given { mask: Some(v@), ..g })
            &&& a@ == "--output"@ ==> r == Scan::Ready(Given { output: Some(v@), ..g })
            &&& a@ == "--weights"@ ==> r == Scan::Ready(Given { weights: Some(v@), ..g })
            &&& a@ == "--index"@ ==> r == Scan::Ready(Given { index: Some(v@), ..g })
        }),
{
    reveal_strlit("--image");
    reveal_strlit("--mask");
    reveal_strlit("--output");
    reveal_strlit("--weights");
    reveal_strlit("--index");
    assert("--image"@.len() == 7 && "--mask"@.len() == 6 && "--output"@.len() == 8);
    assert("--weights"@.len() == 9 && "--index"@.len() == 7);
    assert("--image"@[3] != "--index"@[3]);
    let one = args.push(a);
    let two = one.push(v);
    assert(two.drop_last() =~= one);
    assert(one.drop_last() =~= args);
    assert(scan(one) == scan_one(scan(args), a@));
    assert(scan(two) == scan_one(scan(one), v@));
}

/// A switch sets itself and nothing else, and anything that is neither an option nor a
/// switch nor a call for help is refused.
pub proof fn switches_set_themselves(args: Seq<String>, g: Given, a: String)
    requires
        scan(args) == Scan::Ready(g),
    ensures
        a@ == "--cpu"@ ==> scan(args.push(a)) == Scan::Ready(Given { force_cpu: true, ..g }),
        a@ == "--gpu"@ ==> scan(args.push(a)) == Scan::Ready(Given { force_gpu: true, ..g }),
        a@ == "-h"@ || a@ == "--help"@ ==> scan(args.push(a)) is Help,
        !(a@ == "--image"@ || a@ == "--mask"@ || a@ == "--output"@ || a@ == "--weights"@ || a@
            == "--index"@ || a@ == "--cpu"@ || a@ == "--gpu"@ || a@ == "-h"@ || a@ == "--help"@)
            ==> scan(args.push(a)) == Scan::Failed("unknown argument "@ + a@),
{
    reveal_strlit("--image");
    reveal_strlit("--mask");
    reveal_strlit("--output");
    reveal_strlit("--weights");
    reveal_strlit("--index");
    reveal_strlit("--cpu");
    reveal_strlit("--gpu");
    reveal_strlit("-h");
    reveal_strlit("--help");
    assert("--image"@.len() == 7 && "--mask"@.len() == 6 && "--output"@.len() == 8);
    assert("--weights"@.len() == 9 && "--index"@.len() == 7);
    assert("--cpu"@.len() == 5 && "--gpu"@.len() == 5 && "--cpu"@[2] != "--gpu"@[2]);
    assert("-h"@.len() == 2 && "--help"@.len() == 6 && "--help"@[2] != "--mask"@[2]);
    assert(args.push(a).drop_last() =~= args);
}

/// The weights are looked for beside the executable and in every directory above it
/// that is visited, in each of them directly and in `models`, and never before all
/// nearer directories.
pub proof fn places_are_tried_nearest_first(parents: nat)
    ensures
        forall|i: int, j: int|
            0 <= i <= j < places(parents).len() ==> (#[trigger] places(parents)[i]).up <= (
            #[trigger] places(parents)[j]).up,
        forall|up: usize, in_models: bool|
            up <= parents && up < SEARCH_LEVELS ==> places(parents).contains(
                #[trigger] place_at(up, in_models),
            ),
        forall|i: int|
            0 <= i < places(parents).len() ==> (#[trigger] places(parents)[i]).up <= parents
                && places(parents)[i].up < SEARCH_LEVELS,
{
    let p = places(parents);
    assert forall|up: usize, in_models: bool|
        up <= parents && up < SEARCH_LEVELS implies p.contains(
        #[trigger] place_at(up, in_models),
    ) by {
        let i: int = if in_models {
            2 + 2 * up + 1
        } else {
            2 + 2 * up
        };
        assert(p[i] == place_at(up, in_models));
    }
}

/// A place, so many directories up.
pub open spec fn place_at(up: usize, in_models: bool) -> Place {
    Place { up, in_models }
}

} // verus!

use vstd::prelude::*;

use crate::error::{Error, HeaderFault};
use crate::json::{field, get_field, key_index, key_index_from, parse_u64, decimal_u64, JsonValue};
use crate::path::{join, join_path, path_components, split_path, texts};

verus! {

/// The largest file size an archive may record: the largest integer that a
/// double-precision number holds exactly.
pub const MAX_SAFE_INTEGER: u64 = 9007199254740991;

/// The structure of an archive, or of a directory about to be packed.
///
/// - `File(name, offset, size)`: a file whose bytes lie at `offset` from the
///   start of the data region, `size` bytes long.
/// - `Folder(name, children)`: a folder and what it holds.
/// - `Home(children)`: the unnamed top folder of an archive.
/// - `List(files)`: the files of a directory to be packed, as (path, size),
///   in the order their bytes follow one another.
#[derive(Debug, PartialEq, Eq)]
pub enum Content {
    File(String, u64, u64),
    Folder(String, Vec<Content>),
    Home(Vec<Content>),
    List(Vec<(String, u64)>),
}

/// The key of a folder's members.
pub open spec fn key_files() -> Seq<char> {
    seq!['f', 'i', 'l', 'e', 's']
}

/// The key of a file's size.
pub open spec fn key_size() -> Seq<char> {
    seq!['s', 'i', 'z', 'e']
}

/// The key of a file's offset.
pub open spec fn key_offset() -> Seq<char> {
    seq!['o', 'f', 'f', 's', 'e', 't']
}

/// Whether the members of a descriptor make it a file: a string `offset` and
/// a numeric `size`.
pub open spec fn is_file_descriptor(fields: Seq<(String, JsonValue)>) -> bool {
    &&& field(fields, key_offset()) matches Some(JsonValue::Str(_))
    &&& field(fields, key_size()) matches Some(JsonValue::Number(_))
}

/// The fault of a file descriptor named `name`, if any.
pub open spec fn file_fault(name: String, fields: Seq<(String, JsonValue)>) -> Option<Error> {
    match (field(fields, key_offset()), field(fields, key_size())) {
        (Some(JsonValue::Str(o)), Some(JsonValue::Number(n))) => match n {
            None => Some(Error::ParseHeaderError(HeaderFault::SizeNotInteger, name)),
            Some(s) => if s > MAX_SAFE_INTEGER {
                Some(Error::ParseHeaderError(HeaderFault::SizeTooLarge, name))
            } else if decimal_u64(o@) is None {
                Some(Error::ParseHeaderError(HeaderFault::BadOffset, name))
            } else {
                None
            },
        },
        _ => None,
    }
}

/// The first fault met when the entity `name` with descriptor `v` and all
/// that it holds are classified, children in order, or `None`.
pub open spec fn fault_of(name: String, v: JsonValue) -> Option<Error>
    decreases v, 0int,
{
    match v {
        JsonValue::Object(fields) => if is_file_descriptor(fields@) {
            file_fault(name, fields@)
        } else {
            let k = key_index(fields@, key_files());
            if 0 <= k < fields@.len() {
                match fields@[k].1 {
                    JsonValue::Object(children) => first_fault(children@, 0),
                    _ => Some(Error::ParseHeaderError(HeaderFault::MissingFiles, name)),
                }
            } else {
                Some(Error::ParseHeaderError(HeaderFault::MissingFiles, name))
            }
        },
        _ => Some(Error::ParseHeaderError(HeaderFault::MissingFiles, name)),
    }
}

/// The first fault among the members of a `files` object from index `i` on.
pub open spec fn first_fault(children: Seq<(String, JsonValue)>, i: int) -> Option<Error>
    decreases children, children.len() - i,
{
    if i < 0 || i >= children.len() {
        None
    } else {
        match fault_of(children[i].0, children[i].1) {
            Some(e) => Some(e),
            None => first_fault(children, i + 1),
        }
    }
}

/// Whether `c` is the classified form of the entity `name` with descriptor
/// `v`: a file with the offset and size that it records, or a folder whose
/// children, in order, are the classified members of its `files` object.
pub open spec fn describes(name: String, v: JsonValue, c: Content) -> bool
    decreases v,
{
    match v {
        JsonValue::Object(fields) => if is_file_descriptor(fields@) {
            match (field(fields@, key_offset()), field(fields@, key_size())) {
                (Some(JsonValue::Str(o)), Some(JsonValue::Number(Some(s)))) => c == Content::File(
                    name,
                    decimal_u64(o@).unwrap(),
                    s,
                ),
                _ => false,
            }
        } else {
            let k = key_index(fields@, key_files());
            &&& 0 <= k < fields@.len()
            &&& match (fields@[k].1, c) {
                (JsonValue::Object(children), Content::Folder(n, cs)) => {
                    &&& n == name
                    &&& cs@.len() == children@.len()
                    &&& forall|i: int|
                        0 <= i < children@.len() ==> describes(
                            children@[i].0,
                            children@[i].1,
                            #[trigger] cs@[i],
                        )
                }
                _ => false,
            }
        },
        _ => false,
    }
}

/// Whether `cs`, in order, are the classified members of a `files` object.
pub open spec fn members_describe(children: Seq<(String, JsonValue)>, cs: Seq<Content>) -> bool {
    &&& cs.len() == children.len()
    &&& forall|i: int| 0 <= i < children.len() ==> describes(children[i].0, children[i].1, #[trigger] cs[i])
}

/// The members of the `files` object of a header, if it is an object that has one.
pub open spec fn root_members(v: JsonValue) -> Option<Seq<(String, JsonValue)>> {
    match v {
        JsonValue::Object(fields) => match field(fields@, key_files()) {
            Some(JsonValue::Object(children)) => Some(children@),
            _ => None,
        },
        _ => None,
    }
}

/// Whether `c` is the classified form of the whole header `v`.
pub open spec fn describes_root(v: JsonValue, c: Content) -> bool {
    &&& root_members(v) is Some
    &&& c matches Content::Home(cs)
    &&& members_describe(root_members(v).unwrap(), cs@)
}

/// Whether a header decodes: it has a `files` object and no entity in it is faulty.
pub open spec fn header_decodes(v: JsonValue) -> bool {
    &&& root_members(v) is Some
    &&& first_fault(root_members(v).unwrap(), 0) is None
}

/// An owned copy of a key or message.
pub(crate) fn key(s: &str) -> (r: String)
    ensures
        r@ == s@,
{
    s.to_owned()
}

/// Classifies the entity `name` with descriptor `v`, and all that it holds.
fn lookahead(name: &String, v: &JsonValue) -> (r: Result<Content, Error>)
    ensures
        r is Ok <==> fault_of(*name, *v) is None,
        r matches Ok(c) ==> describes(*name, *v, c),
        r matches Err(e) ==> fault_of(*name, *v) == Some(e),
    decreases v, 1int,
{
    let fields = match v {
        JsonValue::Object(f) => f,
        _ => {
            return Err(Error::ParseHeaderError(HeaderFault::MissingFiles, name.clone()));
        },
    };
    let k_offset = key("offset");
    let k_size = key("size");
    let k_files = key("files");
    proof {
        reveal_strlit("offset");
        reveal_strlit("size");
        reveal_strlit("files");
        assert(k_offset@ =~= key_offset());
        assert(k_size@ =~= key_size());
        assert(k_files@ =~= key_files());
    }
    match (get_field(fields, &k_offset), get_field(fields, &k_size)) {
        (Some(JsonValue::Str(o)), Some(JsonValue::Number(n))) => match n {
            None => Err(Error::ParseHeaderError(HeaderFault::SizeNotInteger, name.clone())),
            Some(size) => {
                if *size > MAX_SAFE_INTEGER {
                    Err(Error::ParseHeaderError(HeaderFault::SizeTooLarge, name.clone()))
                } else {
                    match parse_u64(o) {
                        None => Err(Error::ParseHeaderError(HeaderFault::BadOffset, name.clone())),
                        Some(offset) => Ok(Content::File(name.clone(), offset, *size)),
                    }
                }
            },
        },
        _ => match get_field(fields, &k_files) {
            Some(JsonValue::Object(children)) => {
                proof {
                    let k = key_index(fields@, key_files());
                    assert(decreases_to!(*v => fields@[k].1));
                }
                match classify_members(children) {
                    Ok(cs) => Ok(Content::Folder(name.clone(), cs)),
                    Err(e) => Err(e),
                }
            },
            _ => Err(Error::ParseHeaderError(HeaderFault::MissingFiles, name.clone())),
        },
    }
}

/// Classifies the members of a `files` object, in order.
fn classify_members(children: &Vec<(String, JsonValue)>) -> (r: Result<Vec<Content>, Error>)
    ensures
        r is Ok <==> first_fault(children@, 0) is None,
        r matches Ok(cs) ==> members_describe(children@, cs@),
        r matches Err(e) ==> first_fault(children@, 0) == Some(e),
    decreases children, 0int,
{
    let mut cs: Vec<Content> = Vec::new();
    let mut i: usize = 0;
    while i < children.len()
        invariant
            i <= children.len(),
            cs@.len() == i,
            forall|j: int| 0 <= j < i ==> describes(children@[j].0, children@[j].1, #[trigger] cs@[j]),
            first_fault(children@, 0) == first_fault(children@, i as int),
        decreases children.len() - i,
    {
        proof {
            assert(decreases_to!(*children => children@[i as int].1));
        }
        match lookahead(&children[i].0, &children[i].1) {
            Ok(c) => {
                cs.push(c);
            },
            Err(e) => {
                return Err(e);
            },
        }
        i = i + 1;
    }
    Ok(cs)
}

/// The name of a file or folder.
pub open spec fn name_of(c: Content) -> Option<Seq<char>> {
    match c {
        Content::File(n, _, _) => Some(n@),
        Content::Folder(n, _) => Some(n@),
        _ => None,
    }
}

/// The index of the first entry at index `i` or later named `name`, or the
/// number of entries where there is none.
pub open spec fn child_index_from(cs: Seq<Content>, name: Seq<char>, i: int) -> int
    decreases cs.len() - i,
{
    if i < 0 || i >= cs.len() {
        cs.len() as int
    } else if name_of(cs[i]) == Some(name) {
        i
    } else {
        child_index_from(cs, name, i + 1)
    }
}

/// The node that the components `comps` lead to from the entries `cs`: the
/// entry named by the first component, then on down through folders.
pub open spec fn lookup_in(cs: Seq<Content>, comps: Seq<Seq<char>>) -> Option<Content>
    decreases cs,
{
    if comps.len() == 0 {
        None
    } else {
        let k = child_index_from(cs, comps[0], 0);
        if 0 <= k < cs.len() {
            lookup_below(cs[k], comps.drop_first())
        } else {
            None
        }
    }
}

/// The node that the components `rest` lead to below `c`; `c` itself where
/// none are left.
pub open spec fn lookup_below(c: Content, rest: Seq<Seq<char>>) -> Option<Content>
    decreases c,
{
    if rest.len() == 0 {
        Some(c)
    } else {
        match c {
            Content::Folder(_, cs) => lookup_in(cs@, rest),
            _ => None,
        }
    }
}

/// What `find` answers for the components `comps`: the archive's top node
/// for no component at all, else the node they lead to. A file or folder
/// searched on its own counts as the single entry at the top.
pub open spec fn find_spec(c: Content, comps: Seq<Seq<char>>) -> Option<Content> {
    match c {
        Content::Home(cs) => if comps.len() == 0 {
            Some(c)
        } else {
            lookup_in(cs@, comps)
        },
        Content::List(_) => None,
        _ => lookup_in(seq![c], comps),
    }
}

/// The index in `cs` of the first entry named `name`, or the number of
/// entries where there is none.
fn child_index(cs: &Vec<Content>, name: &String) -> (k: usize)
    ensures
        k == child_index_from(cs@, name@, 0),
{
    let mut i: usize = 0;
    while i < cs.len()
        invariant
            i <= cs.len(),
            child_index_from(cs@, name@, 0) == child_index_from(cs@, name@, i as int),
        decreases cs.len() - i,
    {
        match &cs[i] {
            Content::File(n, _, _) => {
                if *n == *name {
                    return i;
                }
            },
            Content::Folder(n, _) => {
                if *n == *name {
                    return i;
                }
            },
            _ => {},
        }
        i = i + 1;
    }
    i
}

/// Follows the components `comps[d..]` down from `c`.
fn descend<'a>(c: &'a Content, comps: &Vec<String>, d: usize) -> (r: Option<&'a Content>)
    requires
        d <= comps@.len(),
    ensures
        r matches Some(x) ==> lookup_below(*c, crate::path::texts(comps@).subrange(d as int, comps@.len() as int)) == Some(*x),
        r is None ==> lookup_below(*c, crate::path::texts(comps@).subrange(d as int, comps@.len() as int)) is None,
    decreases c,
{
    let ghost rest = crate::path::texts(comps@).subrange(d as int, comps@.len() as int);
    if d == comps.len() {
        return Some(c);
    }
    match c {
        Content::Folder(_, cs) => {
            let k = child_index(cs, &comps[d]);
            if k < cs.len() {
                proof {
                    assert(rest[0] == comps@[d as int]@);
                    assert(rest.drop_first() =~= crate::path::texts(comps@).subrange(d + 1, comps@.len() as int));
                    assert(decreases_to!(*c => cs@[k as int]));
                }
                descend(&cs[k], comps, d + 1)
            } else {
                None
            }
        },
        _ => None,
    }
}

/// The paths of `c` and of all that it holds, in pre-order, when `c` stands
/// under the path `prefix`: a folder before its children, each child before
/// the next.
pub open spec fn paths_below(prefix: Seq<char>, c: Content) -> Seq<Seq<char>>
    decreases c, 0int,
{
    match c {
        Content::File(n, _, _) => seq![join(prefix, n@)],
        Content::Folder(n, cs) => seq![join(prefix, n@)] + paths_of(join(prefix, n@), cs@, 0),
        _ => Seq::empty(),
    }
}

/// The paths below the entries `cs[i..]`, one entry after the other.
pub open spec fn paths_of(prefix: Seq<char>, cs: Seq<Content>, i: int) -> Seq<Seq<char>>
    decreases cs, cs.len() - i,
{
    if i < 0 || i >= cs.len() {
        Seq::empty()
    } else {
        paths_below(prefix, cs[i]) + paths_of(prefix, cs, i + 1)
    }
}

/// Appends the paths of `content`, standing under `prefix`, to `out`.
fn paths_to_vec_aux(content: &Content, prefix: &String, out: &mut Vec<String>)
    ensures
        texts(final(out)@) == texts(old(out)@) + paths_below(prefix@, *content),
    decreases content, 1int,
{
    match content {
        Content::File(n, _, _) => {
            let p = join_path(prefix, n);
            let ghost before = out@;
            out.push(p);
            assert(texts(out@) =~= texts(before) + paths_below(prefix@, *content));
        },
        Content::Folder(n, cs) => {
            let p = join_path(prefix, n);
            let ghost before = out@;
            out.push(p.clone());
            assert(texts(out@) =~= texts(before) + seq![p@]);
            proof {
                assert(decreases_to!(*content => *cs));
            }
            paths_of_aux(cs, &p, out);
            assert(texts(out@) =~= texts(before) + paths_below(prefix@, *content));
        },
        _ => {
            assert(texts(out@) =~= texts(out@) + paths_below(prefix@, *content));
        },
    }
}

/// Appends the paths of the entries `cs`, standing under `prefix`, to `out`.
fn paths_of_aux(cs: &Vec<Content>, prefix: &String, out: &mut Vec<String>)
    ensures
        texts(final(out)@) == texts(old(out)@) + paths_of(prefix@, cs@, 0),
    decreases cs, 0int,
{
    let ghost before = out@;
    let mut i: usize = 0;
    while i < cs.len()
        invariant
            i <= cs.len(),
            texts(out@) + paths_of(prefix@, cs@, i as int) == texts(before) + paths_of(prefix@, cs@, 0),
        decreases cs.len() - i,
    {
        let ghost mid = out@;
        proof {
            assert(decreases_to!(*cs => cs@[i as int]));
        }
        paths_to_vec_aux(&cs[i], prefix, out);
        assert(texts(out@) + paths_of(prefix@, cs@, i + 1) =~= texts(mid) + paths_of(prefix@, cs@, i as int));
        i = i + 1;
    }
    assert(texts(out@) + paths_of(prefix@, cs@, i as int) =~= texts(out@));
}

/// One step of writing an archive's contents out to a directory.
///
/// - `CreateDir(path)`: make the folder `path`, and any folder above it.
/// - `WriteFile(path, position, size)`: write the `size` bytes that stand at
///   `position` in the archive as the file `path`.
#[derive(Debug, PartialEq, Eq)]
pub enum Step {
    CreateDir(String),
    WriteFile(String, u64, u64),
}

/// A step as a path and, for a file, its position and size.
pub open spec fn step_view(s: Step) -> (Seq<char>, Option<(int, int)>) {
    match s {
        Step::CreateDir(p) => (p@, None),
        Step::WriteFile(p, pos, size) => (p@, Some((pos as int, size as int))),
    }
}

/// The steps of a plan, each as a path and, for a file, its position and size.
pub open spec fn steps_view(v: Seq<Step>) -> Seq<(Seq<char>, Option<(int, int)>)> {
    v.map_values(|s: Step| step_view(s))
}

/// The steps that write out `c` under the folder `base`, in pre-order, for
/// a data region that starts at `start`: a folder is made before what it
/// holds, and a file's bytes are read at `start` plus its offset.
pub open spec fn plan_below(base: Seq<char>, c: Content, start: int) -> Seq<
    (Seq<char>, Option<(int, int)>),
>
    decreases c, 0int,
{
    match c {
        Content::File(n, o, s) => seq![(join(base, n@), Some((start + o, s as int)))],
        Content::Folder(n, cs) => seq![(join(base, n@), None)] + plan_of(
            join(base, n@),
            cs@,
            0,
            start,
        ),
        _ => Seq::empty(),
    }
}

/// The steps for the entries `cs[i..]`, one entry after the other.
pub open spec fn plan_of(base: Seq<char>, cs: Seq<Content>, i: int, start: int) -> Seq<
    (Seq<char>, Option<(int, int)>),
>
    decreases cs, cs.len() - i,
{
    if i < 0 || i >= cs.len() {
        Seq::empty()
    } else {
        plan_below(base, cs[i], start) + plan_of(base, cs, i + 1, start)
    }
}

/// Whether the position of a step, if it has one, is an address of 64 bits.
pub open spec fn step_fits(s: (Seq<char>, Option<(int, int)>)) -> bool {
    match s.1 {
        Some((pos, _)) => pos <= u64::MAX,
        None => true,
    }
}

/// Whether every position of a plan is an address of 64 bits.
pub open spec fn plan_fits(p: Seq<(Seq<char>, Option<(int, int)>)>) -> bool {
    forall|k: int| 0 <= k < p.len() ==> step_fits(#[trigger] p[k])
}

proof fn lemma_plan_fits_concat(
    a: Seq<(Seq<char>, Option<(int, int)>)>,
    b: Seq<(Seq<char>, Option<(int, int)>)>,
)
    ensures
        plan_fits(a + b) <==> plan_fits(a) && plan_fits(b),
{
    if plan_fits(a + b) {
        assert forall|k: int| 0 <= k < b.len() implies step_fits(#[trigger] b[k]) by {
            assert((a + b)[a.len() + k] == b[k]);
        }
        assert forall|k: int| 0 <= k < a.len() implies step_fits(#[trigger] a[k]) by {
            assert((a + b)[k] == a[k]);
        }
    }
    if plan_fits(a) && plan_fits(b) {
        assert forall|k: int| 0 <= k < (a + b).len() implies step_fits(#[trigger] (a + b)[k]) by {
            if k < a.len() {
                assert((a + b)[k] == a[k]);
            } else {
                assert((a + b)[k] == b[k - a.len()]);
            }
        }
    }
}

/// The steps that write out `c` under the folder `base`: for the top node
/// of an archive, `base` itself and then its entries; for a file or folder,
/// that entry.
pub open spec fn extract_plan(c: Content, base: Seq<char>, start: int) -> Seq<
    (Seq<char>, Option<(int, int)>),
> {
    match c {
        Content::Home(cs) => seq![(base, None)] + plan_of(base, cs@, 0, start),
        _ => plan_below(base, c, start),
    }
}

/// Appends the steps that write out `c` under `base` to `out`.
fn plan_aux(c: &Content, base: &String, start: u64, out: &mut Vec<Step>) -> (r: Result<(), Error>)
    ensures
        r is Ok <==> plan_fits(plan_below(base@, *c, start as int)),
        r is Ok ==> steps_view(final(out)@) == steps_view(old(out)@) + plan_below(base@, *c, start as int),
        r matches Err(e) ==> e is IoError,
    decreases c, 1int,
{
    let ghost before = out@;
    match c {
        Content::File(n, o, s) => {
            let p = join_path(base, n);
            let ghost plan = plan_below(base@, *c, start as int);
            assert(plan[0] == (p@, Some(((start + *o) as int, *s as int))));
            if *o > u64::MAX - start {
                assert(!step_fits(plan[0]));
                return Err(Error::IoError(p));
            }
            out.push(Step::WriteFile(p, start + *o, *s));
            assert(steps_view(out@) =~= steps_view(before) + plan);
            Ok(())
        },
        Content::Folder(n, cs) => {
            let p = join_path(base, n);
            out.push(Step::CreateDir(p.clone()));
            let ghost head: Seq<(Seq<char>, Option<(int, int)>)> = seq![(p@, None)];
            assert(steps_view(out@) =~= steps_view(before) + head);
            proof {
                assert(decreases_to!(*c => *cs));
                lemma_plan_fits_concat(head, plan_of(p@, cs@, 0, start as int));
            }
            let r = plan_of_aux(cs, &p, start, out);
            assert(r is Ok ==> steps_view(out@) =~= steps_view(before) + plan_below(base@, *c, start as int));
            r
        },
        _ => {
            assert(steps_view(out@) =~= steps_view(before) + plan_below(base@, *c, start as int));
            Ok(())
        },
    }
}

/// Appends the steps that write out the entries `cs` under `base` to `out`.
fn plan_of_aux(cs: &Vec<Content>, base: &String, start: u64, out: &mut Vec<Step>) -> (r: Result<(), Error>)
    ensures
        r is Ok <==> plan_fits(plan_of(base@, cs@, 0, start as int)),
        r is Ok ==> steps_view(final(out)@) == steps_view(old(out)@) + plan_of(base@, cs@, 0, start as int),
        r matches Err(e) ==> e is IoError,
    decreases cs, 0int,
{
    let ghost before = out@;
    let mut i: usize = 0;
    while i < cs.len()
        invariant
            i <= cs.len(),
            steps_view(out@) + plan_of(base@, cs@, i as int, start as int) == steps_view(before)
                + plan_of(base@, cs@, 0, start as int),
            plan_fits(plan_of(base@, cs@, 0, start as int)) <==> plan_fits(
                plan_of(base@, cs@, i as int, start as int),
            ),
        decreases cs.len() - i,
    {
        let ghost mid = out@;
        proof {
            assert(decreases_to!(*cs => cs@[i as int]));
            lemma_plan_fits_concat(
                plan_below(base@, cs@[i as int], start as int),
                plan_of(base@, cs@, i + 1, start as int),
            );
        }
        let r = plan_aux(&cs[i], base, start, out);
        if r.is_err() {
            return r;
        }
        assert(steps_view(out@) + plan_of(base@, cs@, i + 1, start as int) =~= steps_view(mid)
            + plan_of(base@, cs@, i as int, start as int));
        i = i + 1;
    }
    assert(steps_view(out@) + plan_of(base@, cs@, i as int, start as int) =~= steps_view(out@));
    Ok(())
}

impl Content {
    /// Classifies a whole archive header: an object whose `files` member is
    /// an object. Every entity is classified and checked here, so that a
    /// malformed one is reported at once.
    pub fn new_json(header: JsonValue) -> (r: Result<Content, Error>)
        ensures
            r is Ok <==> header_decodes(header),
            r matches Ok(c) ==> describes_root(header, c),
            r matches Err(e) ==> {
                if !(header is Object) {
                    e matches Error::ParseHeaderError(HeaderFault::NotObject, n) && n@.len() == 0
                } else if root_members(header) is None {
                    e matches Error::ParseHeaderError(HeaderFault::MissingFiles, n) && n@.len()
                        == 0
                } else {
                    first_fault(root_members(header).unwrap(), 0) == Some(e)
                }
            },
    {
        Content::from_header(&header)
    }

    /// Classifies a whole archive header, as `new_json` does, without
    /// taking it.
    pub fn from_header(header: &JsonValue) -> (r: Result<Content, Error>)
        ensures
            r is Ok <==> header_decodes(*header),
            r matches Ok(c) ==> describes_root(*header, c),
            r matches Err(e) ==> {
                if !(*header is Object) {
                    e matches Error::ParseHeaderError(HeaderFault::NotObject, n) && n@.len() == 0
                } else if root_members(*header) is None {
                    e matches Error::ParseHeaderError(HeaderFault::MissingFiles, n) && n@.len()
                        == 0
                } else {
                    first_fault(root_members(*header).unwrap(), 0) == Some(e)
                }
            },
    {
        let fields = match header {
            JsonValue::Object(f) => f,
            _ => {
                return Err(Error::ParseHeaderError(HeaderFault::NotObject, String::new()));
            },
        };
        let k_files = key("files");
        proof {
            reveal_strlit("files");
            assert(k_files@ =~= key_files());
        }
        match get_field(fields, &k_files) {
            Some(JsonValue::Object(children)) => match classify_members(children) {
                Ok(cs) => Ok(Content::Home(cs)),
                Err(e) => Err(e),
            },
            _ => Err(Error::ParseHeaderError(HeaderFault::MissingFiles, String::new())),
        }
    }

    /// The list of files of a directory to be packed, as (path, size), in
    /// the order their bytes will follow one another.
    pub fn new_list(list: Vec<(String, u64)>) -> (r: Content)
        ensures
            r == Content::List(list),
    {
        Content::List(list)
    }

    /// Searches for the node at the slash-separated `path`: the archive's
    /// top node for a path without components, else the file or folder that
    /// the components name one below the other, or `None` where no node has
    /// that path.
    pub fn find(&self, path: &str) -> (r: Option<&Content>)
        ensures
            r matches Some(x) ==> find_spec(*self, path_components(path@)) == Some(*x),
            r is None ==> find_spec(*self, path_components(path@)) is None,
    {
        let comps = split_path(path);
        let ghost cv = crate::path::texts(comps@);
        assert(cv.subrange(0, cv.len() as int) =~= cv);
        match self {
            Content::Home(cs) => {
                if comps.len() == 0 {
                    Some(self)
                } else {
                    let k = child_index(cs, &comps[0]);
                    if k < cs.len() {
                        assert(cv.drop_first() =~= cv.subrange(1, cv.len() as int));
                        descend(&cs[k], &comps, 1)
                    } else {
                        None
                    }
                }
            },
            Content::List(_) => None,
            _ => {
                let ghost one = seq![*self];
                if comps.len() == 0 {
                    return None;
                }
                let matched = match self {
                    Content::File(n, _, _) => *n == comps[0],
                    Content::Folder(n, _) => *n == comps[0],
                    _ => false,
                };
                proof {
                    assert(one[0] == *self);
                    if matched {
                        assert(child_index_from(one, cv[0], 0) == 0);
                    } else {
                        assert(child_index_from(one, cv[0], 1) == 1);
                        assert(child_index_from(one, cv[0], 0) == 1);
                    }
                }
                if matched {
                    assert(cv.drop_first() =~= cv.subrange(1, cv.len() as int));
                    descend(self, &comps, 1)
                } else {
                    None
                }
            },
        }
    }

    /// The paths of every folder and file of an archive, in pre-order: a
    /// folder's path before the paths of what it holds. Only the top node of
    /// an archive has paths to list.
    pub fn paths_to_vec(&self) -> (r: Result<Vec<String>, Error>)
        ensures
            self is Home <==> r is Ok,
            r matches Ok(v) ==> texts(v@) == paths_of(Seq::empty(), self->Home_0@, 0),
            r matches Err(e) ==> e is UnknownContentType,
    {
        match self {
            Content::Home(cs) => {
                let mut out: Vec<String> = Vec::new();
                let root = String::new();
                paths_of_aux(cs, &root, &mut out);
                assert(texts(Seq::<String>::empty()) =~= Seq::<Seq<char>>::empty());
                assert(root@ =~= Seq::<char>::empty());
                assert(texts(out@) =~= paths_of(Seq::empty(), self->Home_0@, 0));
                Ok(out)
            },
            _ => Err(Error::UnknownContentType(key("expected the top node of an archive"))),
        }
    }

    /// The steps that write this archive's contents out under the folder
    /// `base`, for a data region that starts at `start`: first `base` itself,
    /// then every folder and file in pre-order. Fails with an I/O error where
    /// a file's position would pass the 64-bit address space, and on a list
    /// of files to be packed, which has no contents to write out.
    pub fn asar_to_dir(&self, base: &String, start: u64) -> (r: Result<Vec<Step>, Error>)
        ensures
            r is Ok <==> !(self is List) && plan_fits(extract_plan(*self, base@, start as int)),
            r matches Ok(v) ==> steps_view(v@) == extract_plan(*self, base@, start as int),
            r matches Err(e) ==> if self is List {
                e is UnknownContentType
            } else {
                e is IoError
            },
    {
        let mut out: Vec<Step> = Vec::new();
        match self {
            Content::Home(cs) => {
                out.push(Step::CreateDir(base.clone()));
                let ghost head = steps_view(out@);
                match plan_of_aux(cs, base, start, &mut out) {
                    Ok(()) => {
                        assert(head =~= seq![(base@, None)]);
                        proof {
                            lemma_plan_fits_concat(head, plan_of(base@, cs@, 0, start as int));
                        }
                        Ok(out)
                    },
                    Err(e) => {
                        proof {
                            lemma_plan_fits_concat(seq![(base@, None)], plan_of(base@, cs@, 0, start as int));
                        }
                        Err(e)
                    },
                }
            },
            Content::List(_) => Err(
                Error::UnknownContentType(key("a list of files to pack has no contents to write out")),
            ),
            _ => {
                assert(steps_view(Seq::<Step>::empty()) =~= Seq::empty());
                let r = plan_aux(self, base, start, &mut out);
                match r {
                    Ok(()) => {
                        assert(steps_view(out@) =~= plan_below(base@, *self, start as int));
                        Ok(out)
                    },
                    Err(e) => Err(e),
                }
            },
        }
    }

    /// The files to be concatenated into an archive, as (path, size), in the
    /// order of their offsets. Only a list of files to be packed has them.
    pub fn dir_to_asar(&self) -> (r: Result<&Vec<(String, u64)>, Error>)
        ensures
            self is List <==> r is Ok,
            r matches Ok(l) ==> *l == self->List_0,
            r matches Err(e) ==> e is UnknownContentType,
    {
        match self {
            Content::List(l) => Ok(l),
            _ => Err(Error::UnknownContentType(key("an opened archive has no files to concatenate"))),
        }
    }
}

/// A path without components, the empty path among them, finds the top
/// node of an archive itself.
pub proof fn lemma_find_empty_path(c: Content, path: Seq<char>)
    requires
        c is Home,
        path_components(path).len() == 0,
    ensures
        find_spec(c, path_components(path)) == Some(c),
{
}

/// The empty path has no components.
pub proof fn lemma_empty_path_components()
    ensures
        path_components(Seq::<char>::empty()).len() == 0,
{
    assert(crate::path::piece(Seq::<char>::empty(), 0, 0) =~= Seq::<Seq<char>>::empty());
}

/// A file descriptor with a valid offset is accepted exactly when its size
/// is at most `MAX_SAFE_INTEGER`; above it, the fault is a size too large,
/// naming the file.
pub proof fn lemma_size_ceiling(name: String, v: JsonValue)
    requires
        v matches JsonValue::Object(f) && field(f@, key_offset()) matches Some(JsonValue::Str(o))
            && decimal_u64(o@) is Some,
        v matches JsonValue::Object(f) && field(f@, key_size()) matches Some(
            JsonValue::Number(Some(_)),
        ),
    ensures
        ({
            let size = field(v->Object_0@, key_size()).unwrap()->Number_0.unwrap();
            &&& fault_of(name, v) is None <==> size <= MAX_SAFE_INTEGER
            &&& size > MAX_SAFE_INTEGER ==> fault_of(name, v) == Some(
                Error::ParseHeaderError(HeaderFault::SizeTooLarge, name),
            )
        }),
{
}

/// The descriptor that the components `comps` name among the members `m`
/// of a `files` object: the member named by the first component, then on
/// down through the `files` objects of folder descriptors.
pub open spec fn json_lookup(m: Seq<(String, JsonValue)>, comps: Seq<Seq<char>>) -> Option<JsonValue>
    decreases comps.len(),
{
    if comps.len() == 0 {
        None
    } else {
        let k = key_index(m, comps[0]);
        if 0 <= k < m.len() {
            if comps.len() == 1 {
                Some(m[k].1)
            } else {
                match m[k].1 {
                    JsonValue::Object(f) => if is_file_descriptor(f@) {
                        None
                    } else {
                        match field(f@, key_files()) {
                            Some(JsonValue::Object(sub)) => json_lookup(sub@, comps.drop_first()),
                            _ => None,
                        }
                    },
                    _ => None,
                }
            }
        } else {
            None
        }
    }
}

proof fn lemma_key_index_from(m: Seq<(String, JsonValue)>, key: Seq<char>, i: int)
    requires
        0 <= i <= m.len(),
    ensures
        i <= key_index_from(m, key, i) <= m.len(),
        key_index_from(m, key, i) < m.len() ==> m[key_index_from(m, key, i)].0@ == key,
    decreases m.len() - i,
{
    if i < m.len() && m[i].0@ != key {
        lemma_key_index_from(m, key, i + 1);
    }
}

proof fn lemma_same_index(m: Seq<(String, JsonValue)>, cs: Seq<Content>, key: Seq<char>, i: int)
    requires
        members_describe(m, cs),
        0 <= i <= m.len(),
    ensures
        child_index_from(cs, key, i) == key_index_from(m, key, i),
    decreases m.len() - i,
{
    if i < m.len() {
        assert(describes(m[i].0, m[i].1, cs[i]));
        assert(name_of(cs[i]) == Some(m[i].0@));
        lemma_same_index(m, cs, key, i + 1);
    }
}

proof fn lemma_lookup_file(m: Seq<(String, JsonValue)>, cs: Seq<Content>, comps: Seq<Seq<char>>)
    requires
        members_describe(m, cs),
        json_lookup(m, comps) matches Some(JsonValue::Object(f)) && is_file_descriptor(f@),
    ensures
        lookup_in(cs, comps) matches Some(Content::File(n, o, s)) && n@ == comps.last() && ({
            let f = json_lookup(m, comps).unwrap()->Object_0@;
            &&& field(f, key_offset()) matches Some(JsonValue::Str(t)) && o == decimal_u64(t@).unwrap()
            &&& field(f, key_size()) == Some(JsonValue::Number(Some(s)))
        }),
    decreases comps.len(),
{
    let k = key_index(m, comps[0]);
    lemma_key_index_from(m, comps[0], 0);
    lemma_same_index(m, cs, comps[0], 0);
    assert(describes(m[k].0, m[k].1, cs[k]));
    if comps.len() > 1 {
        let f = m[k].1->Object_0;
        let sub = field(f@, key_files()).unwrap()->Object_0;
        let ccs = cs[k]->Folder_1;
        assert(members_describe(sub@, ccs@));
        lemma_lookup_file(sub@, ccs@, comps.drop_first());
        assert(comps.drop_first().last() == comps.last());
        assert(json_lookup(m, comps) == json_lookup(sub@, comps.drop_first()));
        assert(lookup_below(cs[k], comps.drop_first()) == lookup_in(ccs@, comps.drop_first()));
        assert(lookup_in(cs, comps) == lookup_in(ccs@, comps.drop_first()));
    } else {
        assert(comps.drop_first().len() == 0);
        assert(lookup_in(cs, comps) == Some(cs[k]));
        assert(json_lookup(m, comps) == Some(m[k].1));
        assert(comps.last() == comps[0]);
    }
}

/// `find` on a decoded archive gives, for the path of any file descriptor of
/// its header, however deep, that file with exactly the offset and size that
/// the descriptor records.
pub proof fn lemma_find_recorded_file(v: JsonValue, c: Content, comps: Seq<Seq<char>>)
    requires
        describes_root(v, c),
        json_lookup(root_members(v).unwrap(), comps) matches Some(JsonValue::Object(f))
            && is_file_descriptor(f@),
    ensures
        find_spec(c, comps) matches Some(Content::File(n, o, s)) && n@ == comps.last() && ({
            let f = json_lookup(root_members(v).unwrap(), comps).unwrap()->Object_0@;
            &&& field(f, key_offset()) matches Some(JsonValue::Str(t)) && o == decimal_u64(t@).unwrap()
            &&& field(f, key_size()) == Some(JsonValue::Number(Some(s)))
        }),
{
    lemma_lookup_file(root_members(v).unwrap(), c->Home_0@, comps);
}

} // verus!

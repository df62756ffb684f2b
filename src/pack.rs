use vstd::prelude::*;

use crate::content::{
    describes, describes_root, fault_of, first_fault, header_decodes, key, key_files, key_offset,
    key_size, paths_below, paths_of, Content, MAX_SAFE_INTEGER,
};
use crate::error::{Error, HeaderFault};
use crate::json::{
    decimal_text, decimal_u64, field, get_field, key_index, key_index_from, lemma_decimal_round_trip,
    parse_u64, u64_text, JsonValue,
};
use crate::path::{join, join_path};

verus! {

/// A directory to be packed, as listed from the file system.
///
/// - `File(name, path, length)`: a file, the path it is read from, and its
///   length in bytes.
/// - `Dir(name, entries)`: a directory and its entries, in the order that the
///   listing gave them.
#[derive(Debug, PartialEq, Eq)]
pub enum DirNode {
    File(String, String, u64),
    Dir(String, Vec<DirNode>),
}

/// The name of a file or directory.
pub open spec fn node_name(n: DirNode) -> Seq<char> {
    match n {
        DirNode::File(name, _, _) => name@,
        DirNode::Dir(name, _) => name@,
    }
}

/// The number of bytes of all files in `n`.
pub open spec fn total_size(n: DirNode) -> nat
    decreases n, 0int,
{
    match n {
        DirNode::File(_, _, len) => len as nat,
        DirNode::Dir(_, cs) => total_of(cs@, cs@.len() as int),
    }
}

/// The number of bytes of all files in the entries `cs[..i]`.
pub open spec fn total_of(cs: Seq<DirNode>, i: int) -> nat
    decreases cs, i,
{
    if i <= 0 || i > cs.len() {
        0
    } else {
        total_of(cs, i - 1) + total_size(cs[i - 1])
    }
}

/// The files of `n` in pre-order, as (path, offset, size), the first of them
/// at `offset` and each next one where the entries before it end.
pub open spec fn layout(n: DirNode, offset: int) -> Seq<(Seq<char>, int, int)>
    decreases n, 0int,
{
    match n {
        DirNode::File(_, path, len) => seq![(path@, offset, len as int)],
        DirNode::Dir(_, cs) => layout_of(cs@, offset, 0),
    }
}

/// The files of the entries `cs[i..]` of a directory whose files start at `offset`.
pub open spec fn layout_of(cs: Seq<DirNode>, offset: int, i: int) -> Seq<(Seq<char>, int, int)>
    decreases cs, cs.len() - i,
{
    if i < 0 || i >= cs.len() {
        Seq::empty()
    } else {
        layout(cs[i], offset + total_of(cs, i)) + layout_of(cs, offset, i + 1)
    }
}

/// Whether the header value `v` describes `n` with its files starting at
/// `offset`: a file as its `size` and its `offset` in decimal text; a
/// directory as a `files` object with one member per entry, named as the
/// entry and placed after the entries before it.
pub open spec fn encodes(n: DirNode, v: JsonValue, offset: int) -> bool
    decreases n,
{
    match (n, v) {
        (DirNode::File(_, _, len), JsonValue::Object(f)) => {
            &&& f@.len() == 2
            &&& f@[0].0@ == key_size()
            &&& f@[0].1 == JsonValue::Number(Some(len))
            &&& f@[1].0@ == key_offset()
            &&& f@[1].1 matches JsonValue::Str(t) && t@ == decimal_text(offset as nat)
        },
        (DirNode::Dir(_, cs), JsonValue::Object(f)) => {
            &&& f@.len() == 1
            &&& f@[0].0@ == key_files()
            &&& f@[0].1 matches JsonValue::Object(m) && {
                &&& m@.len() == cs@.len()
                &&& forall|i: int|
                    0 <= i < cs@.len() ==> m@[i].0@ == node_name(cs@[i]) && encodes(
                        #[trigger] cs@[i],
                        m@[i].1,
                        offset + total_of(cs@, i),
                    )
            }
        },
        _ => false,
    }
}

/// A packing list as (path, size).
pub open spec fn list_view(l: Seq<(String, u64)>) -> Seq<(Seq<char>, int)> {
    l.map_values(|e: (String, u64)| (e.0@, e.1 as int))
}

/// A layout without its offsets.
pub open spec fn drop_offsets(l: Seq<(Seq<char>, int, int)>) -> Seq<(Seq<char>, int)> {
    l.map_values(|e: (Seq<char>, int, int)| (e.0, e.2))
}

proof fn lemma_total_of_monotone(cs: Seq<DirNode>, i: int, j: int)
    requires
        0 <= i <= j <= cs.len(),
    ensures
        total_of(cs, i) <= total_of(cs, j),
    decreases j - i,
{
    if i < j {
        lemma_total_of_monotone(cs, i, j - 1);
    }
}

proof fn lemma_drop_offsets_concat(a: Seq<(Seq<char>, int, int)>, b: Seq<(Seq<char>, int, int)>)
    ensures
        drop_offsets(a + b) == drop_offsets(a) + drop_offsets(b),
{
    assert(drop_offsets(a + b) =~= drop_offsets(a) + drop_offsets(b));
}

/// Turns `node` into its header value, its files starting at `*offset`;
/// advances `*offset` past them and appends them to the packing list.
pub(crate) fn dir_to_value(node: &DirNode, offset: &mut u64, list: &mut Vec<(String, u64)>) -> (r: Result<
    JsonValue,
    Error,
>)
    ensures
        r is Ok <==> sizes_ok(*node) && *old(offset) + total_size(*node) <= u64::MAX,
        r matches Ok(v) ==> {
            &&& encodes(*node, v, *old(offset) as int)
            &&& *final(offset) == *old(offset) + total_size(*node)
            &&& list_view(final(list)@) == list_view(old(list)@) + drop_offsets(
                layout(*node, *old(offset) as int),
            )
        },
        r matches Err(e) ==> e matches Error::ParseHeaderError(HeaderFault::SizeTooLarge, _),
    decreases node,
{
    let ghost start = *offset as int;
    let ghost before = list@;
    match node {
        DirNode::File(name, path, len) => {
            if *len > MAX_SAFE_INTEGER || *offset > u64::MAX - *len {
                return Err(Error::ParseHeaderError(HeaderFault::SizeTooLarge, name.clone()));
            }
            let text = u64_text(*offset);
            let k_size = key("size");
            let k_offset = key("offset");
            proof {
                reveal_strlit("size");
                reveal_strlit("offset");
                assert(k_size@ =~= key_size());
                assert(k_offset@ =~= key_offset());
            }
            let mut f: Vec<(String, JsonValue)> = Vec::new();
            f.push((k_size, JsonValue::Number(Some(*len))));
            f.push((k_offset, JsonValue::Str(text)));
            list.push((path.clone(), *len));
            *offset = *offset + *len;
            assert(list_view(list@) =~= list_view(before) + drop_offsets(layout(*node, start)));
            Ok(JsonValue::Object(f))
        },
        DirNode::Dir(dname, cs) => {
            let mut m: Vec<(String, JsonValue)> = Vec::new();
            let mut i: usize = 0;
            while i < cs.len()
                invariant
                    *node == DirNode::Dir(*dname, *cs),
                    start == *old(offset),
                    forall|j: int| 0 <= j < i ==> sizes_ok(#[trigger] cs@[j]),
                    i <= cs@.len(),
                    m@.len() == i,
                    *offset == start + total_of(cs@, i as int),
                    forall|j: int|
                        0 <= j < i ==> m@[j].0@ == node_name(cs@[j]) && encodes(
                            #[trigger] cs@[j],
                            m@[j].1,
                            start + total_of(cs@, j),
                        ),
                    list_view(list@) + drop_offsets(layout_of(cs@, start, i as int)) == list_view(
                        before,
                    ) + drop_offsets(layout_of(cs@, start, 0)),
                decreases cs.len() - i,
            {
                let ghost mid = list@;
                let ghost at = *offset;
                proof {
                    assert(decreases_to!(*node => (*node)->Dir_1));
                    assert(decreases_to!(*cs => cs@[i as int]));
                    lemma_drop_offsets_concat(
                        layout(cs@[i as int], start + total_of(cs@, i as int)),
                        layout_of(cs@, start, i + 1),
                    );
                }
                let name = match &cs[i] {
                    DirNode::File(n, _, _) => n.clone(),
                    DirNode::Dir(n, _) => n.clone(),
                };
                match dir_to_value(&cs[i], offset, list) {
                    Ok(v) => {
                        m.push((name, v));
                    },
                    Err(e) => {
                        proof {
                            assert(total_of(cs@, i + 1) == total_of(cs@, i as int) + total_size(
                                cs@[i as int],
                            ));
                            lemma_total_of_monotone(cs@, i + 1, cs@.len() as int);
                            assert(total_size(*node) == total_of(cs@, cs@.len() as int));
                            if !sizes_ok(cs@[i as int]) {
                                assert(!sizes_ok(*node));
                            }
                        }
                        return Err(e);
                    },
                }
                assert(list_view(list@) + drop_offsets(layout_of(cs@, start, i + 1)) =~= list_view(
                    mid,
                ) + drop_offsets(layout_of(cs@, start, i as int)));
                i = i + 1;
            }
            assert(drop_offsets(layout_of(cs@, start, i as int)) =~= Seq::empty());
            assert(list_view(list@) =~= list_view(before) + drop_offsets(layout(*node, start)));
            let k_files = key("files");
            proof {
                reveal_strlit("files");
                assert(k_files@ =~= key_files());
            }
            let mut f: Vec<(String, JsonValue)> = Vec::new();
            f.push((k_files, JsonValue::Object(m)));
            Ok(JsonValue::Object(f))
        },
    }
}

/// Turns `dir` into its header value, its files starting at `*offset`, and
/// advances `*offset` past them.
pub fn gen_value_from_dir(dir: &DirNode, offset: &mut u64) -> (r: JsonValue)
    requires
        sizes_ok(*dir),
        *old(offset) + total_size(*dir) <= u64::MAX,
    ensures
        encodes(*dir, r, *old(offset) as int),
        *final(offset) == *old(offset) + total_size(*dir),
{
    let mut list: Vec<(String, u64)> = Vec::new();
    match dir_to_value(dir, offset, &mut list) {
        Ok(v) => v,
        Err(_) => JsonValue::Null,
    }
}

/// Whether the files of `l` lie back to back from `from` to `to`: the first
/// at `from`, each next one where the one before it ends, the last ending at
/// `to`.
pub open spec fn back_to_back(l: Seq<(Seq<char>, int, int)>, from: int, to: int) -> bool {
    if l.len() == 0 {
        from == to
    } else {
        &&& l[0].1 == from
        &&& forall|k: int| 1 <= k < l.len() ==> (#[trigger] l[k]).1 == l[k - 1].1 + l[k - 1].2
        &&& l[l.len() - 1].1 + l[l.len() - 1].2 == to
    }
}

proof fn lemma_back_to_back_concat(
    a: Seq<(Seq<char>, int, int)>,
    b: Seq<(Seq<char>, int, int)>,
    x: int,
    y: int,
    z: int,
)
    requires
        back_to_back(a, x, y),
        back_to_back(b, y, z),
    ensures
        back_to_back(a + b, x, z),
{
    let l = a + b;
    if a.len() == 0 {
        assert(l =~= b);
    } else if b.len() == 0 {
        assert(l =~= a);
    } else {
        assert(l[0] == a[0]);
        assert(l[l.len() - 1] == b[b.len() - 1]);
        assert forall|k: int| 1 <= k < l.len() implies (#[trigger] l[k]).1 == l[k - 1].1 + l[k - 1].2 by {
            if k < a.len() {
                assert(l[k] == a[k] && l[k - 1] == a[k - 1]);
            } else if k == a.len() {
                assert(l[k] == b[0] && l[k - 1] == a[a.len() - 1]);
            } else {
                assert(l[k] == b[k - a.len()] && l[k - 1] == b[k - a.len() - 1]);
            }
        }
    }
}

proof fn lemma_layout(n: DirNode, offset: int)
    ensures
        back_to_back(layout(n, offset), offset, offset + total_size(n)),
    decreases n, 0int,
{
    match n {
        DirNode::File(_, _, _) => {},
        DirNode::Dir(_, cs) => {
            assert(decreases_to!(n => cs));
            lemma_layout_of(cs@, offset, 0);
        },
    }
}

proof fn lemma_layout_of(cs: Seq<DirNode>, offset: int, i: int)
    requires
        0 <= i <= cs.len(),
    ensures
        back_to_back(
            layout_of(cs, offset, i),
            offset + total_of(cs, i),
            offset + total_of(cs, cs.len() as int),
        ),
    decreases cs, cs.len() - i,
{
    if i < cs.len() {
        lemma_layout(cs[i], offset + total_of(cs, i));
        lemma_layout_of(cs, offset, i + 1);
        assert(total_of(cs, i + 1) == total_of(cs, i) + total_size(cs[i]));
        lemma_back_to_back_concat(
            layout(cs[i], offset + total_of(cs, i)),
            layout_of(cs, offset, i + 1),
            offset + total_of(cs, i),
            offset + total_of(cs, i + 1),
            offset + total_of(cs, cs.len() as int),
        );
    }
}

/// Packing lays the files of a directory back to back: in the order of the
/// packing list, the first at offset 0 of the data region, each next one
/// where the one before it ends, and the last ending at the total size of
/// the directory's files.
pub proof fn lemma_pack_offsets(root: DirNode)
    ensures
        back_to_back(layout(root, 0), 0, total_size(root) as int),
{
    lemma_layout(root, 0);
}

/// The writes that put the files of the header value `v` into an archive,
/// when `v` describes the directory at `path` and the data region starts at
/// `start`, as (source path, position, size), in the order of the members:
/// an object whose one member is a `files` object stands for a directory; an
/// object with `size` and `offset` for a file, whose write is kept where its
/// size is an unsigned integer, its offset a decimal text and its position an
/// address of 64 bits.
pub open spec fn placements(v: JsonValue, path: Seq<char>, start: int) -> Seq<(Seq<char>, int, int)>
    decreases v, 0int,
{
    match v {
        JsonValue::Object(f) => {
            let kf = key_index(f@, key_files());
            if f@.len() == 1 && 0 <= kf < f@.len() {
                match f@[kf].1 {
                    JsonValue::Object(m) => placements_of(m@, path, start, 0),
                    _ => Seq::empty(),
                }
            } else {
                match (field(f@, key_offset()), field(f@, key_size())) {
                    (Some(JsonValue::Str(o)), Some(JsonValue::Number(Some(size)))) => match decimal_u64(o@) {
                        Some(off) => if start + off <= u64::MAX {
                            seq![(path, start + off, size as int)]
                        } else {
                            Seq::empty()
                        },
                        None => Seq::empty(),
                    },
                    _ => Seq::empty(),
                }
            }
        },
        _ => Seq::empty(),
    }
}

/// The writes for the members `m[i..]` of a directory at `path`.
pub open spec fn placements_of(m: Seq<(String, JsonValue)>, path: Seq<char>, start: int, i: int) -> Seq<
    (Seq<char>, int, int),
>
    decreases m, m.len() - i,
{
    if i < 0 || i >= m.len() {
        Seq::empty()
    } else {
        placements(m[i].1, join(path, m[i].0@), start) + placements_of(m, path, start, i + 1)
    }
}

/// The writes as (source path, position, size).
pub open spec fn writes_view(w: Seq<(String, u64, u64)>) -> Seq<(Seq<char>, int, int)> {
    w.map_values(|e: (String, u64, u64)| (e.0@, e.1 as int, e.2 as int))
}

/// Appends to `writes` the writes that put the files of the header value
/// `value`, describing the directory at `path`, into an archive whose data
/// region starts at `start`. Returns whether `value` is an object.
pub fn write_to_asar(value: &JsonValue, path: &String, start: u64, writes: &mut Vec<(String, u64, u64)>) -> (r: bool)
    ensures
        r == (*value is Object),
        writes_view(final(writes)@) == writes_view(old(writes)@) + placements(*value, path@, start as int),
    decreases value,
{
    let ghost before = writes@;
    let f = match value {
        JsonValue::Object(f) => f,
        _ => {
            assert(writes_view(writes@) =~= writes_view(before) + placements(*value, path@, start as int));
            return false;
        },
    };
    let k_files = key("files");
    let k_size = key("size");
    let k_offset = key("offset");
    proof {
        reveal_strlit("files");
        reveal_strlit("size");
        reveal_strlit("offset");
        assert(k_files@ =~= key_files());
        assert(k_size@ =~= key_size());
        assert(k_offset@ =~= key_offset());
    }
    let files = get_field(f, &k_files);
    if f.len() == 1 && files.is_some() {
        match files {
            Some(JsonValue::Object(m)) => {
                let mut i: usize = 0;
                while i < m.len()
                    invariant
                        *value == JsonValue::Object(*f),
                        f@.len() == 1,
                        f@[key_index(f@, key_files())].1 == JsonValue::Object(*m),
                        0 <= key_index(f@, key_files()) < f@.len(),
                        i <= m@.len(),
                        writes_view(writes@) + placements_of(m@, path@, start as int, i as int)
                            == writes_view(before) + placements_of(m@, path@, start as int, 0),
                    decreases m.len() - i,
                {
                    let ghost mid = writes@;
                    let child = join_path(path, &m[i].0);
                    proof {
                        let kf = key_index(f@, key_files());
                        assert(decreases_to!(*value => (*value)->Object_0));
                        assert(decreases_to!((*value)->Object_0 => f@));
                        assert(decreases_to!(f@ => f@[kf]));
                        assert(decreases_to!(f@[kf] => f@[kf].1));
                        assert(decreases_to!(f@[kf].1 => (f@[kf].1)->Object_0));
                        assert(decreases_to!(*m => m@));
                        assert(decreases_to!(m@ => m@[i as int]));
                        assert(decreases_to!(m@[i as int] => m@[i as int].1));
                    }
                    write_to_asar(&m[i].1, &child, start, writes);
                    assert(writes_view(writes@) + placements_of(m@, path@, start as int, i + 1)
                        =~= writes_view(mid) + placements_of(m@, path@, start as int, i as int));
                    i = i + 1;
                }
                assert(writes_view(writes@) =~= writes_view(before) + placements(*value, path@, start as int));
            },
            _ => {
                assert(writes_view(writes@) =~= writes_view(before) + placements(*value, path@, start as int));
            },
        }
        return true;
    }
    match (get_field(f, &k_offset), get_field(f, &k_size)) {
        (Some(JsonValue::Str(o)), Some(JsonValue::Number(Some(size)))) => match parse_u64(o) {
            Some(off) => {
                if off <= u64::MAX - start {
                    writes.push((path.clone(), start + off, *size));
                }
            },
            None => {},
        },
        _ => {},
    }
    assert(writes_view(writes@) =~= writes_view(before) + placements(*value, path@, start as int));
    true
}

/// Whether every file of `n` is at most `MAX_SAFE_INTEGER` bytes long.
pub open spec fn sizes_ok(n: DirNode) -> bool
    decreases n,
{
    match n {
        DirNode::File(_, _, len) => len <= MAX_SAFE_INTEGER,
        DirNode::Dir(_, cs) => forall|i: int| 0 <= i < cs@.len() ==> sizes_ok(#[trigger] cs@[i]),
    }
}

/// The (offset, size) of each file of a layout.
pub open spec fn regions(l: Seq<(Seq<char>, int, int)>) -> Seq<(int, int)> {
    l.map_values(|e: (Seq<char>, int, int)| (e.1, e.2))
}

/// The (offset, size) of each file of `c`, in pre-order.
pub open spec fn regions_in(c: Content) -> Seq<(int, int)>
    decreases c, 0int,
{
    match c {
        Content::File(_, o, s) => seq![(o as int, s as int)],
        Content::Folder(_, cs) => regions_list(cs@, 0),
        _ => Seq::empty(),
    }
}

/// The (offset, size) of each file of the entries `cs[i..]`, in pre-order.
pub open spec fn regions_list(cs: Seq<Content>, i: int) -> Seq<(int, int)>
    decreases cs, cs.len() - i,
{
    if i < 0 || i >= cs.len() {
        Seq::empty()
    } else {
        regions_in(cs[i]) + regions_list(cs, i + 1)
    }
}

/// The paths of `n` and of all that it holds, in pre-order, when `n`
/// stands under the path `prefix`.
pub open spec fn dir_paths(prefix: Seq<char>, n: DirNode) -> Seq<Seq<char>>
    decreases n, 0int,
{
    match n {
        DirNode::File(name, _, _) => seq![join(prefix, name@)],
        DirNode::Dir(name, cs) => seq![join(prefix, name@)] + dir_paths_of(join(prefix, name@), cs@, 0),
    }
}

/// The paths below the entries `cs[i..]`, one entry after the other.
pub open spec fn dir_paths_of(prefix: Seq<char>, cs: Seq<DirNode>, i: int) -> Seq<Seq<char>>
    decreases cs, cs.len() - i,
{
    if i < 0 || i >= cs.len() {
        Seq::empty()
    } else {
        dir_paths(prefix, cs[i]) + dir_paths_of(prefix, cs, i + 1)
    }
}

proof fn lemma_keys_differ()
    ensures
        key_size() != key_offset(),
        key_files() != key_offset(),
        key_files() != key_size(),
{
    assert(key_size().len() != key_offset().len());
    assert(key_files().len() != key_offset().len());
    assert(key_files()[0] != key_size()[0]);
}

proof fn lemma_round_trip_node(
    n: DirNode,
    v: JsonValue,
    offset: int,
    name: String,
    c: Content,
    prefix: Seq<char>,
)
    requires
        encodes(n, v, offset),
        sizes_ok(n),
        0 <= offset,
        offset + total_size(n) <= u64::MAX,
    ensures
        fault_of(name, v) is None,
        describes(name, v, c) ==> regions_in(c) == regions(layout(n, offset)),
        describes(name, v, c) && name@ == node_name(n) ==> paths_below(prefix, c) == dir_paths(
            prefix,
            n,
        ),
    decreases n, 0int,
{
    lemma_keys_differ();
    let f = v->Object_0;
    match n {
        DirNode::File(_, _, len) => {
            assert(key_index_from(f@, key_offset(), 1) == 1);
            assert(key_index(f@, key_offset()) == 1);
            assert(key_index(f@, key_size()) == 0);
            lemma_decimal_round_trip(offset as u64);
            if describes(name, v, c) {
                assert(regions_in(c) =~= regions(layout(n, offset)));
            }
        },
        DirNode::Dir(_, cs) => {
            assert(key_index_from(f@, key_offset(), 1) == 1);
            assert(key_index(f@, key_offset()) == 1);
            assert(key_index(f@, key_files()) == 0);
            let m = f@[0].1->Object_0;
            assert(total_size(n) == total_of(cs@, cs@.len() as int));
            assert(decreases_to!(n => cs));
            let inner = join(prefix, node_name(n));
            if describes(name, v, c) {
                lemma_round_trip_list(cs@, m@, c->Folder_1@, offset, 0, inner);
            } else {
                lemma_round_trip_list(cs@, m@, Seq::empty(), offset, 0, inner);
            }
        },
    }
}

proof fn lemma_round_trip_list(
    cs: Seq<DirNode>,
    m: Seq<(String, JsonValue)>,
    ccs: Seq<Content>,
    offset: int,
    i: int,
    prefix: Seq<char>,
)
    requires
        0 <= i <= cs.len(),
        m.len() == cs.len(),
        forall|j: int|
            0 <= j < cs.len() ==> encodes(#[trigger] cs[j], m[j].1, offset + total_of(cs, j)),
        forall|j: int| 0 <= j < cs.len() ==> m[j].0@ == node_name(#[trigger] cs[j]),
        forall|j: int| 0 <= j < cs.len() ==> sizes_ok(#[trigger] cs[j]),
        0 <= offset,
        offset + total_of(cs, cs.len() as int) <= u64::MAX,
    ensures
        first_fault(m, i) is None,
        ccs.len() == m.len() && (forall|j: int|
            0 <= j < m.len() ==> describes(m[j].0, m[j].1, #[trigger] ccs[j])) ==> regions_list(
            ccs,
            i,
        ) == regions(layout_of(cs, offset, i)) && paths_of(prefix, ccs, i) == dir_paths_of(
            prefix,
            cs,
            i,
        ),
    decreases cs, cs.len() - i,
{
    if i < cs.len() {
        lemma_total_of_monotone(cs, i + 1, cs.len() as int);
        assert(total_of(cs, i + 1) == total_of(cs, i) + total_size(cs[i]));
        let c = if i < ccs.len() {
            ccs[i]
        } else {
            vstd::pervasive::arbitrary()
        };
        lemma_round_trip_node(cs[i], m[i].1, offset + total_of(cs, i), m[i].0, c, prefix);
        lemma_round_trip_list(cs, m, ccs, offset, i + 1, prefix);
        assert(regions(layout_of(cs, offset, i)) =~= regions(layout(cs[i], offset + total_of(cs, i)))
            + regions(layout_of(cs, offset, i + 1)));
    } else {
        assert(regions(layout_of(cs, offset, i)) =~= Seq::empty());
    }
}

/// Decoding the header that packing writes for a directory gives the files
/// back where packing put them: the header decodes without fault, and the
/// decoded tree has the directory's paths, in the same pre-order, and places
/// each file at the offset and size that the packing list gives it, so that
/// extraction reads back the bytes that packing concatenated. This holds
/// where every file is at most `MAX_SAFE_INTEGER` bytes long, the one size
/// that decoding refuses.
pub proof fn lemma_round_trip(root: DirNode, v: JsonValue, c: Content)
    requires
        root is Dir,
        encodes(root, v, 0),
        sizes_ok(root),
        total_size(root) <= u64::MAX,
    ensures
        header_decodes(v),
        describes_root(v, c) ==> regions_list(c->Home_0@, 0) == regions(layout(root, 0)),
        describes_root(v, c) ==> paths_of(Seq::empty(), c->Home_0@, 0) == dir_paths_of(
            Seq::empty(),
            root->Dir_1@,
            0,
        ),
{
    lemma_keys_differ();
    let f = v->Object_0;
    let cs = root->Dir_1;
    assert(key_index(f@, key_files()) == 0);
    let m = f@[0].1->Object_0;
    assert(total_size(root) == total_of(cs@, cs@.len() as int));
    if describes_root(v, c) {
        lemma_round_trip_list(cs@, m@, c->Home_0@, 0, 0, Seq::empty());
    } else {
        lemma_round_trip_list(cs@, m@, Seq::empty(), 0, 0, Seq::empty());
    }
}

/// The bytes of `c`, one after the other, with nothing between them.
pub open spec fn concat(c: Seq<Seq<u8>>) -> Seq<u8>
    decreases c.len(),
{
    if c.len() == 0 {
        Seq::empty()
    } else {
        concat(c.drop_last()) + c.last()
    }
}

/// The views of a list of byte vectors.
pub open spec fn bytes_view(c: Seq<Vec<u8>>) -> Seq<Seq<u8>> {
    c.map_values(|v: Vec<u8>| v@)
}

/// The data region of an archive: the contents of its files, in the order
/// of the packing list, with no gap and no padding.
pub fn data_region(contents: &Vec<Vec<u8>>) -> (r: Vec<u8>)
    ensures
        r@ == concat(bytes_view(contents@)),
{
    let mut out: Vec<u8> = Vec::new();
    let mut i: usize = 0;
    while i < contents.len()
        invariant
            i <= contents@.len(),
            out@ == concat(bytes_view(contents@).subrange(0, i as int)),
        decreases contents.len() - i,
    {
        let ghost before = out@;
        let part = &contents[i];
        let mut k: usize = 0;
        while k < part.len()
            invariant
                k <= part@.len(),
                out@ == before + part@.subrange(0, k as int),
            decreases part.len() - k,
        {
            out.push(part[k]);
            assert(out@ =~= before + part@.subrange(0, (k + 1) as int));
            k = k + 1;
        }
        proof {
            let s = bytes_view(contents@).subrange(0, i + 1);
            assert(s.drop_last() =~= bytes_view(contents@).subrange(0, i as int));
            assert(part@.subrange(0, k as int) =~= s.last());
        }
        i = i + 1;
    }
    assert(bytes_view(contents@).subrange(0, i as int) =~= bytes_view(contents@));
    out
}

proof fn lemma_concat_prefix(c: Seq<Seq<u8>>, j: int)
    requires
        0 <= j <= c.len(),
    ensures
        concat(c.subrange(0, j)).len() <= concat(c).len(),
        concat(c.subrange(0, j)) == concat(c).subrange(0, concat(c.subrange(0, j)).len() as int),
    decreases c.len() - j,
{
    if j == c.len() {
        assert(c.subrange(0, j) =~= c);
        assert(concat(c).subrange(0, concat(c).len() as int) =~= concat(c));
    } else {
        lemma_concat_prefix(c, j + 1);
        let s = c.subrange(0, j + 1);
        assert(s.drop_last() =~= c.subrange(0, j));
        let a = concat(c.subrange(0, j));
        assert(concat(s) == a + c[j]);
        assert(a.len() <= concat(s).len());
        assert(concat(c).subrange(0, a.len() as int) =~= concat(s).subrange(0, a.len() as int));
        assert(concat(s).subrange(0, a.len() as int) =~= a);
    }
}

proof fn lemma_concat_piece(c: Seq<Seq<u8>>, i: int)
    requires
        0 <= i < c.len(),
    ensures
        ({
            let at = concat(c.subrange(0, i)).len() as int;
            concat(c).subrange(at, at + c[i].len() as int) == c[i]
        }),
{
    lemma_concat_prefix(c, i + 1);
    let s = c.subrange(0, i + 1);
    assert(s.drop_last() =~= c.subrange(0, i));
    let a = concat(c.subrange(0, i));
    assert(concat(s) == a + c[i]);
    assert(concat(s).len() == a.len() + c[i].len());
    assert(concat(c).subrange(a.len() as int, (a.len() + c[i].len()) as int) =~= concat(s).subrange(
        a.len() as int,
        (a.len() + c[i].len()) as int,
    ));
    assert(concat(s).subrange(a.len() as int, (a.len() + c[i].len()) as int) =~= c[i]);
}

proof fn lemma_offset_is_bytes_before(l: Seq<(Seq<char>, int, int)>, c: Seq<Seq<u8>>, to: int, i: int)
    requires
        back_to_back(l, 0, to),
        l.len() == c.len(),
        forall|j: int| 0 <= j < c.len() ==> #[trigger] c[j].len() == l[j].2,
        0 <= i < c.len(),
    ensures
        l[i].1 == concat(c.subrange(0, i)).len(),
    decreases i,
{
    if i == 0 {
        assert(c.subrange(0, 0) =~= Seq::<Seq<u8>>::empty());
    } else {
        lemma_offset_is_bytes_before(l, c, to, i - 1);
        let s = c.subrange(0, i);
        assert(s.drop_last() =~= c.subrange(0, i - 1));
        assert(l[i].1 == l[i - 1].1 + l[i - 1].2);
    }
}

/// In the data region that packing writes, the bytes of each file stand at
/// the offset that the header gives it, `size` bytes long, with nothing
/// between one file and the next: where the contents read from the packing
/// list's paths are as long as the list says, the region from a file's
/// offset on, as long as its size, holds exactly that file's contents.
pub proof fn lemma_data_region(root: DirNode, contents: Seq<Seq<u8>>, i: int)
    requires
        layout(root, 0).len() == contents.len(),
        forall|j: int| 0 <= j < contents.len() ==> #[trigger] contents[j].len() == layout(root, 0)[j].2,
        0 <= i < contents.len(),
    ensures
        ({
            let e = layout(root, 0)[i];
            concat(contents).subrange(e.1, e.1 + e.2) == contents[i]
        }),
{
    lemma_layout(root, 0);
    lemma_offset_is_bytes_before(layout(root, 0), contents, total_size(root) as int, i);
    lemma_concat_piece(contents, i);
}

} // verus!

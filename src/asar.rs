use vstd::prelude::*;

use crate::content::{describes_root, find_spec, header_decodes, paths_of, Content};
use crate::error::{Error, HeaderFault};
use crate::json::JsonValue;
use crate::pack::{
    dir_to_value, drop_offsets, encodes, layout, list_view, sizes_ok, total_size, DirNode,
};
use crate::path::{path_components, split_path, texts};

verus! {

/// An opened archive, or a directory opened to be packed.
///
/// - `src_path`: the archive file or the directory.
/// - `content`: the archive's classified tree, or the directory's packing list.
/// - `start`: where the data region starts, after the header.
/// - `header`: for a directory, the header value that packing writes.
#[derive(Debug)]
pub struct Asar {
    pub src_path: String,
    pub content: Content,
    pub start: u64,
    pub header: Option<JsonValue>,
}

/// Whether `pat` occurs in `t`.
pub open spec fn text_contains(t: Seq<char>, pat: Seq<char>) -> bool {
    exists|i: int| 0 <= i && i + pat.len() <= t.len() && #[trigger] t.subrange(i, i + pat.len()) == pat
}

/// Whether the last component of the path `p` holds `pat`.
pub open spec fn name_contains(p: Seq<char>, pat: Seq<char>) -> bool {
    let c = path_components(p);
    c.len() > 0 && text_contains(c.last(), pat)
}

/// Whether `pat` occurs in `t`.
fn contains_text(t: &str, pat: &str) -> (r: bool)
    ensures
        r == text_contains(t@, pat@),
{
    let n = t.unicode_len();
    let m = pat.unicode_len();
    if m > n {
        return false;
    }
    if m == 0 {
        assert(t@.subrange(0, 0 + pat@.len() as int) =~= pat@);
        return true;
    }
    let p = pat.to_owned();
    let mut i: usize = 0;
    while i <= n - m
        invariant
            n == t@.len(),
            m == pat@.len(),
            p@ == pat@,
            0 < m <= n,
            i <= n - m + 1,
            forall|j: int| 0 <= j < i ==> #[trigger] t@.subrange(j, j + m) != pat@,
        decreases n - m + 1 - i,
    {
        let piece = t.substring_char(i, i + m).to_owned();
        if piece == p {
            return true;
        }
        i = i + 1;
    }
    false
}

/// Whether the last component of a path holds `pat`, as a predicate.
pub open spec fn name_pred(pat: Seq<char>) -> spec_fn(Seq<char>) -> bool {
    |p: Seq<char>| name_contains(p, pat)
}

/// The paths among `v` whose last component holds `pat`.
pub open spec fn paths_with(v: Seq<Seq<char>>, pat: Seq<char>) -> Seq<Seq<char>> {
    v.filter(name_pred(pat))
}

/// The file region that a lookup gives: for a file, its position in the
/// archive, `start` plus its offset, and its size, where the position is an
/// address of 64 bits.
pub open spec fn region_of(found: Option<Content>, start: int) -> Option<(u64, u64)> {
    match found {
        Some(Content::File(_, o, s)) => if start + o <= u64::MAX {
            Some(((start + o) as u64, s))
        } else {
            None
        },
        _ => None,
    }
}

impl Asar {
    /// An opened archive file, from its header value and the start of its
    /// data region.
    pub fn from_archive(src_path: String, header: JsonValue, start: u64) -> (r: Result<Asar, Error>)
        ensures
            r is Ok <==> header_decodes(header),
            r matches Ok(a) ==> a.src_path == src_path && describes_root(header, a.content)
                && a.start == start && a.header is None,
    {
        match Content::new_json(header) {
            Ok(c) => Ok(Asar { src_path, content: c, start, header: None }),
            Err(e) => Err(e),
        }
    }

    /// A directory opened for packing, from the header value and packing
    /// list that packing it gives and the length of the header's JSON text:
    /// the data region starts right after the 16 bytes of the frame and the
    /// text.
    pub fn from_dir(src_path: String, header: JsonValue, list: Vec<(String, u64)>, json_len: u64) -> (r: Asar)
        requires
            json_len + 16 <= u64::MAX,
        ensures
            r.src_path == src_path,
            r.content == Content::List(list),
            r.start == json_len + 16,
            r.header == Some(header),
    {
        Asar { src_path, content: Content::new_list(list), start: json_len + 16, header: Some(header) }
    }

    /// Turns a directory into the header value of its archive and its packing
    /// list: every file gets, as its offset, the sum of the sizes of the files
    /// before it in pre-order, and the packing list holds the files, as (path,
    /// size), in that same order. Fails, naming the file, where a file is
    /// larger than `MAX_SAFE_INTEGER` or the sizes add up past `u64::MAX`.
    pub fn gen_header_from_dir(root: &DirNode) -> (r: Result<(JsonValue, Vec<(String, u64)>), Error>)
        ensures
            r is Ok <==> sizes_ok(*root) && total_size(*root) <= u64::MAX,
            r matches Ok((v, l)) ==> {
                &&& encodes(*root, v, 0)
                &&& list_view(l@) == drop_offsets(layout(*root, 0))
            },
            r matches Err(e) ==> e matches Error::ParseHeaderError(HeaderFault::SizeTooLarge, _),
    {
        let mut offset: u64 = 0;
        let mut list: Vec<(String, u64)> = Vec::new();
        match dir_to_value(root, &mut offset, &mut list) {
            Ok(v) => {
                assert(list_view(Seq::<(String, u64)>::empty()) =~= Seq::empty());
                assert(list_view(list@) =~= drop_offsets(layout(*root, 0)));
                Ok((v, list))
            },
            Err(e) => Err(e),
        }
    }

    /// The paths of every folder and file, in pre-order. For a directory
    /// opened for packing they are read from the header that packing writes.
    pub fn list(&self) -> (r: Result<Vec<String>, Error>)
        ensures
            self.content is Home ==> r is Ok && texts(r->Ok_0@) == paths_of(
                Seq::empty(),
                self.content->Home_0@,
                0,
            ),
            self.content is List ==> (r is Ok <==> (self.header is Some && header_decodes(self.header.unwrap()))),
            self.content is List && r is Ok ==> exists|c: Content|
                describes_root(self.header.unwrap(), c) && texts(r->Ok_0@) == paths_of(
                    Seq::empty(),
                    #[trigger] c->Home_0@,
                    0,
                ),
            !(self.content is Home) && !(self.content is List) ==> r is Err,
    {
        match &self.content {
            Content::Home(_) => self.content.paths_to_vec(),
            Content::List(_) => match &self.header {
                Some(h) => match Content::from_header(h) {
                    Ok(c) => c.paths_to_vec(),
                    Err(e) => Err(e),
                },
                None => Err(Error::UnknownContentType(crate::content::key("no header to list"))),
            },
            _ => self.content.paths_to_vec(),
        }
    }

    /// The paths among those of `list` whose last component holds `pat`, in
    /// the same order; none where there is nothing to list.
    pub fn get_paths_contain(&self, pat: &str) -> (r: Vec<String>)
        ensures
            self.content is Home ==> texts(r@) == paths_with(
                paths_of(Seq::empty(), self.content->Home_0@, 0),
                pat@,
            ),
            self.content is List && (self.header is None || !header_decodes(self.header.unwrap()))
                ==> r@.len() == 0,
            self.content is List && self.header is Some && header_decodes(self.header.unwrap())
                ==> exists|c: Content|
                describes_root(self.header.unwrap(), c) && texts(r@) == paths_with(
                    paths_of(Seq::empty(), #[trigger] c->Home_0@, 0),
                    pat@,
                ),
            self.content is File || self.content is Folder ==> r@.len() == 0,
    {
        let all = match self.list() {
            Ok(v) => v,
            Err(_) => {
                return Vec::new();
            },
        };
        let ghost pred = name_pred(pat@);
        let mut out: Vec<String> = Vec::new();
        let mut i: usize = 0;
        while i < all.len()
            invariant
                pred == name_pred(pat@),
                i <= all@.len(),
                texts(out@) == texts(all@).subrange(0, i as int).filter(pred),
            decreases all.len() - i,
        {
            let comps = split_path(all[i].as_str());
            let hit = if comps.len() > 0 {
                assert(texts(comps@).last() == comps@[comps.len() - 1]@);
                contains_text(comps[comps.len() - 1].as_str(), pat)
            } else {
                false
            };
            proof {
                let s = texts(all@).subrange(0, i + 1);
                assert(s.drop_last() =~= texts(all@).subrange(0, i as int));
                assert(s.last() == all@[i as int]@);
                reveal(Seq::filter);
                assert(pred(s.last()) == name_contains(all@[i as int]@, pat@));
                assert(texts(comps@) == path_components(all@[i as int]@));
                assert(hit == pred(s.last()));
            }
            if hit {
                let ghost before = out@;
                out.push(all[i].clone());
                assert(texts(out@) =~= texts(before).push(all@[i as int]@));
            }
            i = i + 1;
        }
        assert(texts(all@).subrange(0, i as int) =~= texts(all@));
        proof {
            if self.content is List {
                let c = choose|c: Content|
                    describes_root(self.header.unwrap(), c) && texts(all@) == paths_of(
                        Seq::empty(),
                        #[trigger] c->Home_0@,
                        0,
                    );
                assert(describes_root(self.header.unwrap(), c) && texts(out@) == paths_with(
                    paths_of(Seq::empty(), c->Home_0@, 0),
                    pat@,
                ));
            }
        }
        out
    }

    /// Where the bytes of the file at `path` lie in the archive: its
    /// position and size. `None` where `path` leads to no file: to nothing,
    /// to a folder or to the top node, and for a directory opened to be
    /// packed.
    pub fn file_region(&self, path: &str) -> (r: Option<(u64, u64)>)
        ensures
            r == region_of(find_spec(self.content, path_components(path@)), self.start as int),
    {
        match self.content.find(path) {
            Some(Content::File(_, o, s)) => {
                if *o <= u64::MAX - self.start {
                    Some((self.start + *o, *s))
                } else {
                    None
                }
            },
            _ => None,
        }
    }
}

/// Reading a path that leads to a folder gives no data, and no error.
pub proof fn lemma_folder_has_no_region(a: Asar, path: Seq<char>)
    requires
        find_spec(a.content, path_components(path)) matches Some(Content::Folder(_, _)),
    ensures
        region_of(find_spec(a.content, path_components(path)), a.start as int) is None,
{
}

} // verus!

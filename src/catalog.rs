//! Rules of folder browsing: which files count as images, and how a folder
//! listing is cut into pages.

use std::cmp::Ordering;
use vstd::prelude::*;
use vstd::utf8::encode_utf8;

verus! {

/// One image file of a folder listing.
#[derive(Debug)]
pub struct FileEntry {
    pub name: String,
    pub path: String,
    pub is_directory: bool,
    pub is_image: bool,
    pub size: Option<u64>,
    pub last_modified: Option<String>,
}

/// Pixel dimensions of an image.
#[derive(Debug, Clone, Copy, PartialEq, Eq, Structural)]
pub struct ImageDimensions {
    pub width: u32,
    pub height: u32,
}

/// What the viewer shows of one opened image.
#[derive(Debug)]
pub struct ImageData {
    pub id: String,
    pub name: String,
    pub path: String,
    pub asset_url: String,
    pub dimensions: ImageDimensions,
    pub file_size: u64,
    pub last_modified: String,
}

/// One page of a folder listing.
#[derive(Debug)]
pub struct PaginatedFolderResult {
    pub entries: Vec<FileEntry>,
    pub total_count: usize,
    pub has_more: bool,
    pub offset: usize,
    pub limit: usize,
}

/// Page size when the caller names none.
pub const DEFAULT_PAGE_SIZE: usize = 500;

/// The file extensions, in lower case, that the viewer opens.
pub open spec fn supported_extensions() -> Seq<Seq<char>> {
    seq!["jpg"@, "jpeg"@, "png"@, "gif"@, "webp"@, "bmp"@, "tiff"@, "tif"@, "ico"@]
}

/// The values of a sequence of strings.
pub open spec fn views_of(v: Seq<String>) -> Seq<Seq<char>> {
    v.map_values(|s: String| s@)
}

/// The lower-case form of a string, as Rust's `str::to_lowercase` computes it.
pub uninterp spec fn lower_of(s: Seq<char>) -> Seq<char>;

/// Relies on `str::to_lowercase`: its result depends on the characters of
/// the string alone.
#[verifier::external_body]
fn to_lowercase(s: &str) -> (r: String)
    ensures
        r@ == lower_of(s@),
{
    s.to_lowercase()
}

/// The supported extensions, in lower case.
pub fn get_supported_image_extensions() -> (r: Vec<String>)
    ensures
        views_of(r@) == supported_extensions(),
{
    let r = vec![
        "jpg".to_owned(),
        "jpeg".to_owned(),
        "png".to_owned(),
        "gif".to_owned(),
        "webp".to_owned(),
        "bmp".to_owned(),
        "tiff".to_owned(),
        "tif".to_owned(),
        "ico".to_owned(),
    ];
    assert(views_of(r@) =~= supported_extensions());
    r
}

/// Whether an extension already in lower case is one of the supported ones.
pub fn is_listed_extension(lower: &str) -> (r: bool)
    ensures
        r == supported_extensions().contains(lower@),
{
    let list = get_supported_image_extensions();
    let key = lower.to_owned();
    let n = list.len();
    let mut i: usize = 0;
    while i < n
        invariant
            n == list@.len(),
            key@ == lower@,
            views_of(list@) == supported_extensions(),
            i <= n,
            forall|k: int| 0 <= k < i ==> supported_extensions()[k] != key@,
        decreases n - i,
    {
        assert(views_of(list@)[i as int] == list@[i as int]@);
        if list[i] == key {
            assert(supported_extensions()[i as int] == lower@);
            return true;
        }
        i = i + 1;
    }
    false
}

/// Whether a file with extension `ext` is an image the viewer opens; the
/// comparison ignores case.
pub fn is_supported_extension(ext: &str) -> (r: bool)
    ensures
        r == supported_extensions().contains(lower_of(ext@)),
{
    let lower = to_lowercase(ext);
    is_listed_extension(lower.as_str())
}

/// End of the page that starts at `offset` and holds up to `limit` of
/// `total` entries.
pub open spec fn page_end(offset: nat, limit: nat, total: nat) -> nat {
    if offset + limit < total {
        offset + limit
    } else {
        total
    }
}

/// Cuts a sorted listing into the page that starts at `offset` (default 0)
/// and holds up to `limit` entries (default 500). An offset at or past the
/// end gives an empty page.
pub fn paginate(all_entries: Vec<FileEntry>, offset: Option<usize>, limit: Option<usize>) -> (r:
    PaginatedFolderResult)
    ensures
        ({
            let off = match offset {
                Some(o) => o,
                None => 0,
            };
            let lim = match limit {
                Some(l) => l,
                None => DEFAULT_PAGE_SIZE,
            };
            let end = page_end(off as nat, lim as nat, all_entries@.len());
            &&& r.offset == off
            &&& r.limit == lim
            &&& r.total_count == all_entries@.len()
            &&& r.has_more == (end < all_entries@.len())
            &&& r.entries@ == if off < all_entries@.len() {
                all_entries@.subrange(off as int, end as int)
            } else {
                Seq::<FileEntry>::empty()
            }
        }),
{
    let off = match offset {
        Some(o) => o,
        None => 0,
    };
    let lim = match limit {
        Some(l) => l,
        None => DEFAULT_PAGE_SIZE,
    };
    let total = all_entries.len();
    let end = if off < total && lim < total - off {
        off + lim
    } else {
        total
    };
    let mut entries = all_entries;
    let page = if off < total {
        let mut tail = entries.split_off(off);
        tail.truncate(end - off);
        tail
    } else {
        Vec::new()
    };
    PaginatedFolderResult {
        entries: page,
        total_count: total,
        has_more: end < total,
        offset: off,
        limit: lim,
    }
}

/// Prefix of the URLs under which the viewer's web view loads local files.
pub open spec fn asset_prefix() -> Seq<char> {
    "asset://localhost/"@
}

/// `s` with every backslash turned into a forward slash.
pub open spec fn forward_slashes(s: Seq<char>) -> Seq<char> {
    s.map_values(|c: char| if c == '\\' { '/' } else { c })
}

/// Relies on `str::replace` with a `char` pattern: every occurrence of
/// `from` is replaced by `to`, all other characters are kept in order.
#[verifier::external_body]
fn replace_char(s: &str, from: char, to: char) -> (r: String)
    ensures
        r@ == s@.map_values(|c: char| if c == from { to } else { c }),
{
    s.replace(from, to.encode_utf8(&mut [0u8; 4]))
}

/// The asset URL of a local file: the asset prefix followed by the path
/// with backslashes turned into forward slashes.
pub fn asset_url(path: &str) -> (r: String)
    ensures
        r@ == asset_prefix() + forward_slashes(path@),
{
    let mut url = "asset://localhost/".to_owned();
    let tail = replace_char(path, '\\', '/');
    url.append(tail.as_str());
    url
}

/// Lexicographic order of byte strings: the order in which Rust compares
/// `str` values.
pub open spec fn bytes_cmp(a: Seq<u8>, b: Seq<u8>) -> Ordering
    decreases a.len(),
{
    if a.len() == 0 {
        if b.len() == 0 {
            Ordering::Equal
        } else {
            Ordering::Less
        }
    } else if b.len() == 0 {
        Ordering::Greater
    } else if a[0] < b[0] {
        Ordering::Less
    } else if a[0] > b[0] {
        Ordering::Greater
    } else {
        bytes_cmp(a.drop_first(), b.drop_first())
    }
}

/// Order of file names in a listing: by their lower-case forms.
pub open spec fn name_order(a: Seq<char>, b: Seq<char>) -> Ordering {
    bytes_cmp(encode_utf8(lower_of(a)), encode_utf8(lower_of(b)))
}

/// Compares two strings byte by byte.
pub fn compare_strs(a: &str, b: &str) -> (r: Ordering)
    ensures
        r == bytes_cmp(encode_utf8(a@), encode_utf8(b@)),
{
    let x = a.as_bytes();
    let y = b.as_bytes();
    let ghost xs = x@;
    let ghost ys = y@;
    let mut i: usize = 0;
    assert(xs.skip(0) =~= xs);
    assert(ys.skip(0) =~= ys);
    while i < x.len() && i < y.len()
        invariant
            xs == x@,
            ys == y@,
            xs == encode_utf8(a@),
            ys == encode_utf8(b@),
            i <= xs.len(),
            i <= ys.len(),
            bytes_cmp(xs, ys) == bytes_cmp(xs.skip(i as int), ys.skip(i as int)),
        decreases xs.len() - i,
    {
        if x[i] < y[i] {
            return Ordering::Less;
        }
        if x[i] > y[i] {
            return Ordering::Greater;
        }
        assert(xs.skip(i as int).drop_first() =~= xs.skip(i + 1));
        assert(ys.skip(i as int).drop_first() =~= ys.skip(i + 1));
        i = i + 1;
    }
    if i < x.len() {
        Ordering::Greater
    } else if i < y.len() {
        Ordering::Less
    } else {
        Ordering::Equal
    }
}

/// Compares two file names as a listing orders them: by their lower-case
/// forms, byte by byte.
pub fn compare_names(a: &str, b: &str) -> (r: Ordering)
    ensures
        r == name_order(a@, b@),
{
    let la = to_lowercase(a);
    let lb = to_lowercase(b);
    compare_strs(la.as_str(), lb.as_str())
}

} // verus!

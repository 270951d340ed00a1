use vstd::prelude::*;
use rustc_serialize::hex::ToHex;
use std::io::Read;
use vstd::slice::{slice_subrange, slice_to_vec};

verus! {

/// Lowercase hexadecimal digit for a value below sixteen.
pub open spec fn hex_digit(n: u8) -> char {
    if n < 10 {
        (n + 48) as char
    } else {
        (n + 87) as char
    }
}

/// Two lowercase hexadecimal digits per byte, high half first.
pub open spec fn hex_of(b: Seq<u8>) -> Seq<char>
    decreases b.len(),
{
    if b.len() == 0 {
        Seq::empty()
    } else {
        seq![hex_digit(b[0] / 16), hex_digit(b[0] % 16)] + hex_of(b.drop_first())
    }
}

/// Relies on rustc_serialize's `ToHex for [u8]`: each byte becomes the digits
/// of its high and low half, taken from "0123456789abcdef".
#[verifier::external_body]
fn to_hex(b: &[u8]) -> (r: String)
    ensures
        r@ == hex_of(b@),
{
    b.to_hex()
}

/// What `std::str::from_utf8` makes of a byte sequence: the text it holds,
/// or nothing where the bytes are not valid UTF-8.
pub uninterp spec fn utf8_text(b: Seq<u8>) -> Option<Seq<char>>;

/// Bytes that all lie below 128: ASCII.
pub open spec fn is_ascii_bytes(b: Seq<u8>) -> bool {
    forall|i: int| 0 <= i < b.len() ==> #[trigger] b[i] < 128
}

/// The characters whose codes are the given ASCII bytes.
pub open spec fn ascii_chars(b: Seq<u8>) -> Seq<char> {
    b.map_values(|x: u8| x as char)
}

/// The text that bytes hold: ASCII bytes stand for the characters of the
/// same codes; other bytes are read as UTF-8.
pub open spec fn text_of(b: Seq<u8>) -> Option<Seq<char>> {
    if is_ascii_bytes(b) {
        Some(ascii_chars(b))
    } else {
        utf8_text(b)
    }
}

/// Relies on `std::str::from_utf8`: the text of valid UTF-8 bytes, an error
/// otherwise. ASCII is a subset of UTF-8 in which each byte is the code of
/// its character.
#[verifier::external_body]
fn utf8_string(b: &[u8]) -> (r: Option<String>)
    ensures
        opt_view(r) == (if is_ascii_bytes(b@) {
            Some(ascii_chars(b@))
        } else {
            utf8_text(b@)
        }),
{
    match std::str::from_utf8(b) {
        Ok(s) => Some(s.to_string()),
        Err(_) => None,
    }
}

/// What a zlib decoder makes of a compressed byte sequence: the whole
/// decompressed stream, or nothing where the input is not a valid zlib stream.
pub uninterp spec fn zlib_inflate(b: Seq<u8>) -> Option<Seq<u8>>;

/// Relies on flate2's `read::ZlibDecoder`, read to its end: the decompressed
/// bytes, or an error for input that is not a complete zlib stream.
#[verifier::external_body]
fn inflate(b: &[u8]) -> (r: Option<Vec<u8>>)
    ensures
        match r {
            Some(v) => zlib_inflate(b@) == Some(v@),
            None => zlib_inflate(b@).is_none(),
        },
{
    let mut out = Vec::new();
    match flate2::read::ZlibDecoder::new(b).read_to_end(&mut out) {
        Ok(_) => Some(out),
        Err(_) => None,
    }
}

/// Index of the first `b` at or after `i`, or the length when none follows.
pub open spec fn scan(s: Seq<u8>, i: int, b: u8) -> int
    decreases s.len() - i,
{
    if i < 0 || i >= s.len() {
        s.len() as int
    } else if s[i] == b {
        i
    } else {
        scan(s, i + 1, b)
    }
}

proof fn lemma_scan_bounds(s: Seq<u8>, i: int, b: u8)
    requires
        0 <= i <= s.len(),
    ensures
        i <= scan(s, i, b) <= s.len(),
        scan(s, i, b) < s.len() ==> s[scan(s, i, b)] == b,
    decreases s.len() - i,
{
    if i < s.len() && s[i] != b {
        lemma_scan_bounds(s, i + 1, b);
    }
}

/// `scan` stops at the first `b`: where none lies in `[i, j)` and `s[j]` is
/// `b`, the scan from `i` ends at `j`.
pub proof fn lemma_scan_at(s: Seq<u8>, i: int, j: int, b: u8)
    requires
        0 <= i <= j < s.len(),
        s[j] == b,
        forall|k: int| i <= k < j ==> s[k] != b,
    ensures
        scan(s, i, b) == j,
    decreases j - i,
{
    if i < j {
        lemma_scan_at(s, i + 1, j, b);
    }
}

/// Finds the first `b` in `data` at or after `from`.
fn find_byte(data: &[u8], from: usize, b: u8) -> (r: usize)
    requires
        from <= data@.len(),
    ensures
        r == scan(data@, from as int, b),
        from <= r <= data@.len(),
{
    proof {
        lemma_scan_bounds(data@, from as int, b);
    }
    let mut i: usize = from;
    while i < data.len()
        invariant
            from <= i <= data@.len(),
            scan(data@, i as int, b) == scan(data@, from as int, b),
        decreases data@.len() - i,
    {
        if data[i] == b {
            return i;
        }
        i = i + 1;
    }
    i
}


/// Why an object could not be produced.
#[derive(Clone, Copy, Debug, PartialEq, Eq, Structural)]
pub enum GitError {
    /// The stored bytes are not a complete zlib stream.
    Inflate,
    /// The decompressed stream holds no byte at all.
    EmptyStream,
    /// The header has no zero terminator, or no space between type and size.
    MalformedHeader,
    /// The header's type is none of `blob`, `tree`, `commit`.
    UnknownType,
    /// A tree entry line ends without its zero terminator.
    TruncatedEntry,
    /// A tree entry line has no space between mode and name.
    MalformedEntry,
    /// Fewer than twenty hash bytes follow a tree entry line.
    ShortHash,
    /// A commit header line has no space between tag and value.
    MalformedLine,
    /// A text field is not valid UTF-8.
    InvalidUtf8,
    /// No object is stored under the identifier.
    NotFound,
    /// The object found is not a commit.
    NotACommit,
    /// No marker directory lies at or above the starting directory.
    NoRepository,
}

/// The decoded fields of a commit, as text.
pub struct CommitView {
    pub sha: Seq<char>,
    pub tree: Seq<char>,
    pub parent: Option<Seq<char>>,
    pub author: Seq<char>,
    pub committer: Seq<char>,
    pub message: Seq<char>,
}

/// A commit: the tree it records, its parent if any, who wrote and who
/// committed it, and its message.
pub struct Commit {
    pub sha: String,
    pub tree: String,
    pub parent: Option<String>,
    pub author: String,
    pub committer: String,
    pub message: String,
}

/// The text of an optional string.
pub open spec fn opt_view(o: Option<String>) -> Option<Seq<char>> {
    match o {
        Some(s) => Some(s@),
        None => None,
    }
}

impl View for Commit {
    type V = CommitView;

    open spec fn view(&self) -> CommitView {
        CommitView {
            sha: self.sha@,
            tree: self.tree@,
            parent: opt_view(self.parent),
            author: self.author@,
            committer: self.committer@,
            message: self.message@,
        }
    }
}

/// The bytes of the tag `parent`.
pub open spec fn parent_tag() -> Seq<u8> {
    seq![112u8, 97u8, 114u8, 101u8, 110u8, 116u8]
}

/// End of the text line that starts at `i`.
pub open spec fn line_end(s: Seq<u8>, i: int) -> int {
    scan(s, i, 10)
}

/// Start of the line after the one that starts at `i`.
pub open spec fn next_line(s: Seq<u8>, i: int) -> int {
    if line_end(s, i) < s.len() {
        line_end(s, i) + 1
    } else {
        s.len() as int
    }
}

/// The commit header line at `i`, split at its first space: the tag before
/// it, the text after it, and the start of the next line. Both parts must be
/// valid text.
pub open spec fn field_at(s: Seq<u8>, i: int) -> Result<(Seq<u8>, Seq<char>, int), GitError> {
    let e = line_end(s, i);
    let sp = scan(s, i, 32);
    if sp >= e {
        Err(GitError::MalformedLine)
    } else {
        match (text_of(s.subrange(i, sp)), text_of(s.subrange(sp + 1, e))) {
            (Some(_), Some(v)) => Ok((s.subrange(i, sp), v, next_line(s, i))),
            _ => Err(GitError::InvalidUtf8),
        }
    }
}

/// The commit whose header lines and message follow the object header.
/// The first line holds the tree; a `parent` line may follow; then come the
/// author and committer lines; all that remains is the message, verbatim.
pub open spec fn commit_of(sha: Seq<char>, s: Seq<u8>) -> Result<CommitView, GitError> {
    match field_at(s, 0) {
        Err(e) => Err(e),
        Ok((_, tree, n0)) => match field_at(s, n0) {
            Err(e) => Err(e),
            Ok((tag, v, n1)) => if tag == parent_tag() {
                match field_at(s, n1) {
                    Err(e) => Err(e),
                    Ok((_, author, n2)) => match field_at(s, n2) {
                        Err(e) => Err(e),
                        Ok((_, committer, n3)) => match text_of(s.subrange(n3, s.len() as int)) {
                            None => Err(GitError::InvalidUtf8),
                            Some(message) => Ok(
                                CommitView { sha, tree, parent: Some(v), author, committer, message },
                            ),
                        },
                    },
                }
            } else {
                match field_at(s, n1) {
                    Err(e) => Err(e),
                    Ok((_, committer, n2)) => match text_of(s.subrange(n2, s.len() as int)) {
                        None => Err(GitError::InvalidUtf8),
                        Some(message) => Ok(
                            CommitView { sha, tree, parent: None, author: v, committer, message },
                        ),
                    },
                }
            },
        },
    }
}

/// Reads the commit header line at `i`: whether its tag is `parent`, its
/// value, and where the next line starts.
fn read_field(data: &[u8], i: usize) -> (r: Result<(bool, String, usize), GitError>)
    requires
        i <= data@.len(),
    ensures
        match r {
            Ok((p, v, n)) => field_at(data@, i as int) matches Ok((t, fv, fnext)) && p == (t
                == parent_tag()) && v@ == fv && n == fnext && i <= n <= data@.len(),
            Err(e) => field_at(data@, i as int) == Err::<(Seq<u8>, Seq<char>, int), GitError>(e),
        },
{
    let e = find_byte(data, i, 10);
    let sp = find_byte(data, i, 32);
    if sp >= e {
        return Err(GitError::MalformedLine);
    }
    if utf8_string(slice_subrange(data, i, sp)).is_none() {
        return Err(GitError::InvalidUtf8);
    }
    let value = match utf8_string(slice_subrange(data, sp + 1, e)) {
        Some(v) => v,
        None => {
            return Err(GitError::InvalidUtf8);
        },
    };
    let is_parent = sp - i == 6 && data[i] == 112 && data[i + 1] == 97 && data[i + 2] == 114
        && data[i + 3] == 101 && data[i + 4] == 110 && data[i + 5] == 116;
    proof {
        let t = data@.subrange(i as int, sp as int);
        let pt = parent_tag();
        assert(pt.len() == 6 && pt[0] == 112u8 && pt[1] == 97u8 && pt[2] == 114u8);
        assert(pt[3] == 101u8 && pt[4] == 110u8 && pt[5] == 116u8);
        if is_parent {
            assert(t =~= parent_tag());
        } else if t == parent_tag() {
            assert(t[0] == 112u8 && t[1] == 97u8 && t[2] == 114u8);
            assert(t[3] == 101u8 && t[4] == 110u8 && t[5] == 116u8);
        }
    }
    let n = if e < data.len() {
        e + 1
    } else {
        e
    };
    Ok((is_parent, value, n))
}

impl Commit {
    /// Decodes the part of a commit object that follows its header.
    pub fn from_object_data(sha: &str, data: &[u8]) -> (r: Result<Commit, GitError>)
        ensures
            match r {
                Ok(c) => commit_of(sha@, data@) == Ok::<CommitView, GitError>(c@),
                Err(e) => commit_of(sha@, data@) == Err::<CommitView, GitError>(e),
            },
    {
        let (_, tree, n0) = read_field(data, 0)?;
        let (is_parent, value, n1) = read_field(data, n0)?;
        if is_parent {
            let (_, author, n2) = read_field(data, n1)?;
            let (_, committer, n3) = read_field(data, n2)?;
            let message = match utf8_string(slice_subrange(data, n3, data.len())) {
                Some(m) => m,
                None => {
                    return Err(GitError::InvalidUtf8);
                },
            };
            Ok(
                Commit {
                    sha: sha.to_string(),
                    tree,
                    parent: Some(value),
                    author,
                    committer,
                    message,
                },
            )
        } else {
            let (_, committer, n2) = read_field(data, n1)?;
            let message = match utf8_string(slice_subrange(data, n2, data.len())) {
                Some(m) => m,
                None => {
                    return Err(GitError::InvalidUtf8);
                },
            };
            Ok(
                Commit {
                    sha: sha.to_string(),
                    tree,
                    parent: None,
                    author: value,
                    committer,
                    message,
                },
            )
        }
    }
}


/// The decoded fields of a tree entry, as text.
pub struct EntryView {
    pub mode: Seq<char>,
    pub filename: Seq<char>,
    pub sha: Seq<char>,
}

/// One entry of a tree: mode, file name and the identifier it refers to.
pub struct TreeEntry {
    pub sha: String,
    pub filename: String,
    pub mode: String,
}

impl View for TreeEntry {
    type V = EntryView;

    open spec fn view(&self) -> EntryView {
        EntryView { mode: self.mode@, filename: self.filename@, sha: self.sha@ }
    }
}

/// The decoded fields of a tree.
pub struct TreeView {
    pub sha: Seq<char>,
    pub entries: Seq<EntryView>,
}

/// A tree: its entries, in the order in which the stream holds them.
pub struct Tree {
    pub sha: String,
    pub entries: Vec<TreeEntry>,
}

/// The decoded fields of each entry, in order.
pub open spec fn entry_views(v: Seq<TreeEntry>) -> Seq<EntryView> {
    v.map_values(|x: TreeEntry| x@)
}

impl View for Tree {
    type V = TreeView;

    open spec fn view(&self) -> TreeView {
        TreeView { sha: self.sha@, entries: entry_views(self.entries@) }
    }
}

/// The tree entry at `i`: a line `<mode> <name>` ended by a zero byte, then
/// twenty raw hash bytes, shown as hexadecimal; with the start of what follows.
pub open spec fn entry_at(s: Seq<u8>, i: int) -> Result<(EntryView, int), GitError> {
    let e = scan(s, i, 0);
    let sp = scan(s, i, 32);
    if e >= s.len() {
        Err(GitError::TruncatedEntry)
    } else if sp >= e {
        Err(GitError::MalformedEntry)
    } else if e + 21 > s.len() {
        Err(GitError::ShortHash)
    } else {
        match (text_of(s.subrange(i, sp)), text_of(s.subrange(sp + 1, e))) {
            (Some(mode), Some(filename)) => Ok(
                (EntryView { mode, filename, sha: hex_of(s.subrange(e + 1, e + 21)) }, e + 21),
            ),
            _ => Err(GitError::InvalidUtf8),
        }
    }
}

/// The entries from `i` to the end of the stream, in stream order.
pub open spec fn entries_from(s: Seq<u8>, i: int) -> Result<Seq<EntryView>, GitError>
    decreases s.len() - i,
{
    if i < 0 || i >= s.len() {
        Ok(Seq::empty())
    } else {
        match entry_at(s, i) {
            Err(e) => Err(e),
            Ok((v, n)) => if i < n <= s.len() {
                match entries_from(s, n) {
                    Err(e) => Err(e),
                    Ok(rest) => Ok(seq![v] + rest),
                }
            } else {
                Ok(Seq::empty())
            },
        }
    }
}

/// The tree whose entries follow the object header.
pub open spec fn tree_of(sha: Seq<char>, s: Seq<u8>) -> Result<TreeView, GitError> {
    match entries_from(s, 0) {
        Ok(entries) => Ok(TreeView { sha, entries }),
        Err(e) => Err(e),
    }
}

/// Reads the tree entry that starts at `i`.
fn read_entry(data: &[u8], i: usize) -> (r: Result<(TreeEntry, usize), GitError>)
    requires
        i < data@.len(),
    ensures
        match r {
            Ok((en, n)) => entry_at(data@, i as int) == Ok::<(EntryView, int), GitError>(
                (en@, n as int),
            ) && i < n <= data@.len(),
            Err(e) => entry_at(data@, i as int) == Err::<(EntryView, int), GitError>(e),
        },
{
    let e = find_byte(data, i, 0);
    if e >= data.len() {
        return Err(GitError::TruncatedEntry);
    }
    let sp = find_byte(data, i, 32);
    if sp >= e {
        return Err(GitError::MalformedEntry);
    }
    if data.len() - e < 21 {
        return Err(GitError::ShortHash);
    }
    let mode = match utf8_string(slice_subrange(data, i, sp)) {
        Some(m) => m,
        None => {
            return Err(GitError::InvalidUtf8);
        },
    };
    let filename = match utf8_string(slice_subrange(data, sp + 1, e)) {
        Some(f) => f,
        None => {
            return Err(GitError::InvalidUtf8);
        },
    };
    let sha = to_hex(slice_subrange(data, e + 1, e + 21));
    Ok((TreeEntry { sha, filename, mode }, e + 21))
}

impl Tree {
    /// Decodes the entries of a tree object that follow its header.
    pub fn from_object_data(sha: &str, data: &[u8]) -> (r: Result<Tree, GitError>)
        ensures
            match r {
                Ok(t) => tree_of(sha@, data@) == Ok::<TreeView, GitError>(t@),
                Err(e) => tree_of(sha@, data@) == Err::<TreeView, GitError>(e),
            },
    {
        let mut entries: Vec<TreeEntry> = Vec::new();
        let mut i: usize = 0;
        proof {
            match entries_from(data@, 0) {
                Ok(rest) => assert(entry_views(entries@) + rest =~= rest),
                Err(_) => {},
            }
        }
        while i < data.len()
            invariant
                i <= data@.len(),
                entries_from(data@, 0) == match entries_from(data@, i as int) {
                    Ok(rest) => Ok::<Seq<EntryView>, GitError>(entry_views(entries@) + rest),
                    Err(e) => Err(e),
                },
            decreases data@.len() - i,
        {
            let (entry, n) = read_entry(data, i)?;
            proof {
                match entries_from(data@, n as int) {
                    Ok(rest) => {
                        assert(entry_views(entries@.push(entry)) =~= entry_views(entries@).push(
                            entry@,
                        ));
                        assert(entry_views(entries@) + (seq![entry@] + rest) =~= entry_views(
                            entries@.push(entry),
                        ) + rest);
                    },
                    Err(_) => {},
                }
            }
            entries.push(entry);
            i = n;
        }
        proof {
            assert(entry_views(entries@) + Seq::<EntryView>::empty() =~= entry_views(entries@));
        }
        Ok(Tree { sha: sha.to_string(), entries })
    }
}


/// The decoded fields of a blob.
pub struct BlobView {
    pub sha: Seq<char>,
    pub data: Seq<u8>,
}

/// A blob: opaque content, kept byte for byte.
pub struct Blob {
    pub sha: String,
    pub data: Vec<u8>,
}

impl View for Blob {
    type V = BlobView;

    open spec fn view(&self) -> BlobView {
        BlobView { sha: self.sha@, data: self.data@ }
    }
}

impl Blob {
    /// Takes every byte that follows the object header as the blob's content.
    pub fn from_object_data(sha: &str, data: &[u8]) -> (r: Result<Blob, GitError>)
        ensures
            r matches Ok(b) && b@ == (BlobView { sha: sha@, data: data@ }),
    {
        Ok(Blob { sha: sha.to_string(), data: slice_to_vec(data) })
    }
}

/// The decoded form of an object of any of the three kinds.
pub enum ObjectView {
    Tree(TreeView),
    Commit(CommitView),
    Blob(BlobView),
}

/// An object of the store, of one of three kinds.
pub enum Object {
    Tree(Tree),
    Commit(Commit),
    Blob(Blob),
}

impl View for Object {
    type V = ObjectView;

    open spec fn view(&self) -> ObjectView {
        match self {
            Object::Tree(t) => ObjectView::Tree(t@),
            Object::Commit(c) => ObjectView::Commit(c@),
            Object::Blob(b) => ObjectView::Blob(b@),
        }
    }
}

pub open spec fn blob_tag() -> Seq<u8> {
    seq![98u8, 108u8, 111u8, 98u8]
}

pub open spec fn tree_tag() -> Seq<u8> {
    seq![116u8, 114u8, 101u8, 101u8]
}

pub open spec fn commit_tag() -> Seq<u8> {
    seq![99u8, 111u8, 109u8, 109u8, 105u8, 116u8]
}

/// The object that a decompressed stream holds. The stream opens with a
/// header `<type> <size>` of valid text, ended by a zero byte; the type picks how the rest
/// is read. The size is not held against the rest: only the layout of each
/// kind decides where the object ends.
pub open spec fn object_of(sha: Seq<char>, s: Seq<u8>) -> Result<ObjectView, GitError> {
    let h = scan(s, 0, 0);
    let sp = scan(s, 0, 32);
    if s.len() == 0 {
        Err(GitError::EmptyStream)
    } else if h >= s.len() {
        Err(GitError::MalformedHeader)
    } else if text_of(s.subrange(0, h)) is None {
        Err(GitError::InvalidUtf8)
    } else if sp >= h {
        Err(GitError::MalformedHeader)
    } else {
        let tag = s.subrange(0, sp);
        let body = s.subrange(h + 1, s.len() as int);
        if tag == blob_tag() {
            Ok(ObjectView::Blob(BlobView { sha, data: body }))
        } else if tag == tree_tag() {
            match tree_of(sha, body) {
                Ok(t) => Ok(ObjectView::Tree(t)),
                Err(e) => Err(e),
            }
        } else if tag == commit_tag() {
            match commit_of(sha, body) {
                Ok(c) => Ok(ObjectView::Commit(c)),
                Err(e) => Err(e),
            }
        } else {
            Err(GitError::UnknownType)
        }
    }
}

/// The object that a stored, compressed object file holds.
pub open spec fn stored_object_of(sha: Seq<char>, c: Seq<u8>) -> Result<ObjectView, GitError> {
    match zlib_inflate(c) {
        Some(s) => object_of(sha, s),
        None => Err(GitError::Inflate),
    }
}

/// Whether `t` holds exactly the bytes `blob`.
fn is_blob_tag(t: &[u8]) -> (r: bool)
    ensures
        r == (t@ == blob_tag()),
{
    let r = t.len() == 4 && t[0] == 98 && t[1] == 108 && t[2] == 111 && t[3] == 98;
    proof {
        let w = blob_tag();
        assert(w.len() == 4 && w[0] == 98u8 && w[1] == 108u8 && w[2] == 111u8 && w[3] == 98u8);
        if r {
            assert(t@ =~= w);
        }
    }
    r
}

/// Whether `t` holds exactly the bytes `tree`.
fn is_tree_tag(t: &[u8]) -> (r: bool)
    ensures
        r == (t@ == tree_tag()),
{
    let r = t.len() == 4 && t[0] == 116 && t[1] == 114 && t[2] == 101 && t[3] == 101;
    proof {
        let w = tree_tag();
        assert(w.len() == 4 && w[0] == 116u8 && w[1] == 114u8 && w[2] == 101u8 && w[3] == 101u8);
        if r {
            assert(t@ =~= w);
        }
    }
    r
}

/// Whether `t` holds exactly the bytes `commit`.
fn is_commit_tag(t: &[u8]) -> (r: bool)
    ensures
        r == (t@ == commit_tag()),
{
    let r = t.len() == 6 && t[0] == 99 && t[1] == 111 && t[2] == 109 && t[3] == 109 && t[4]
        == 105 && t[5] == 116;
    proof {
        let w = commit_tag();
        assert(w.len() == 6 && w[0] == 99u8 && w[1] == 111u8 && w[2] == 109u8);
        assert(w[3] == 109u8 && w[4] == 105u8 && w[5] == 116u8);
        if r {
            assert(t@ =~= w);
        }
    }
    r
}

/// Decodes a decompressed object stream: reads the header, then the body of
/// the kind that it names.
pub fn decode_object(sha: &str, data: &[u8]) -> (r: Result<Object, GitError>)
    ensures
        match r {
            Ok(o) => object_of(sha@, data@) == Ok::<ObjectView, GitError>(o@),
            Err(e) => object_of(sha@, data@) == Err::<ObjectView, GitError>(e),
        },
{
    if data.len() == 0 {
        return Err(GitError::EmptyStream);
    }
    let h = find_byte(data, 0, 0);
    let sp = find_byte(data, 0, 32);
    if h >= data.len() {
        return Err(GitError::MalformedHeader);
    }
    if utf8_string(slice_subrange(data, 0, h)).is_none() {
        return Err(GitError::InvalidUtf8);
    }
    if sp >= h {
        return Err(GitError::MalformedHeader);
    }
    let tag = slice_subrange(data, 0, sp);
    let body = slice_subrange(data, h + 1, data.len());
    if is_blob_tag(tag) {
        let blob = Blob::from_object_data(sha, body)?;
        Ok(Object::Blob(blob))
    } else if is_tree_tag(tag) {
        let tree = Tree::from_object_data(sha, body)?;
        Ok(Object::Tree(tree))
    } else if is_commit_tag(tag) {
        let commit = Commit::from_object_data(sha, body)?;
        Ok(Object::Commit(commit))
    } else {
        Err(GitError::UnknownType)
    }
}

/// Decompresses a stored object file and decodes the object it holds.
pub fn read_object(sha: &str, compressed: &[u8]) -> (r: Result<Object, GitError>)
    ensures
        match r {
            Ok(o) => stored_object_of(sha@, compressed@) == Ok::<ObjectView, GitError>(o@),
            Err(e) => stored_object_of(sha@, compressed@) == Err::<ObjectView, GitError>(e),
        },
{
    match inflate(compressed) {
        Some(data) => decode_object(sha, data.as_slice()),
        None => Err(GitError::Inflate),
    }
}


/// A blob survives framing and decoding unchanged: a stream made of the
/// header `blob <size>`, a zero byte, and then any content decodes to a blob
/// that holds exactly that content.
pub proof fn blob_round_trip(sha: Seq<char>, size: Seq<u8>, content: Seq<u8>)
    requires
        forall|i: int| 0 <= i < size.len() ==> 48 <= #[trigger] size[i] <= 57,
    ensures
        object_of(sha, blob_tag() + seq![32u8] + size + seq![0u8] + content) == Ok::<
            ObjectView,
            GitError,
        >(ObjectView::Blob(BlobView { sha, data: content })),
{
    let s = blob_tag() + seq![32u8] + size + seq![0u8] + content;
    let h = 5 + size.len() as int;
    assert(s[0] == 98u8 && s[1] == 108u8 && s[2] == 111u8 && s[3] == 98u8 && s[4] == 32u8);
    assert(s[h] == 0u8);
    assert forall|k: int| 5 <= k < h implies s[k] == size[k - 5] by {}
    lemma_scan_at(s, 0, h, 0);
    lemma_scan_at(s, 0, 4, 32);
    assert(s.subrange(0, 4) =~= blob_tag());
    assert(s.subrange(h + 1, s.len() as int) =~= content);
}


/// A commit header line: a tag, a space, a value, a newline.
pub open spec fn header_line(tag: Seq<u8>, value: Seq<u8>) -> Seq<u8> {
    tag + seq![32u8] + value + seq![10u8]
}

/// Text that fits on one header line: no newline in it.
pub open spec fn one_line(b: Seq<u8>) -> bool {
    forall|i: int| 0 <= i < b.len() ==> #[trigger] b[i] != 10u8
}

/// A tag of a header line: neither a space nor a newline in it.
pub open spec fn plain_tag(t: Seq<u8>) -> bool {
    forall|i: int| 0 <= i < t.len() ==> #[trigger] t[i] != 10u8 && t[i] != 32u8
}

proof fn lemma_field_line(pre: Seq<u8>, tag: Seq<u8>, value: Seq<u8>, rest: Seq<u8>)
    requires
        plain_tag(tag),
        is_ascii_bytes(tag),
        one_line(value),
        text_of(value) is Some,
    ensures
        field_at(pre + header_line(tag, value) + rest, pre.len() as int) == Ok::<
            (Seq<u8>, Seq<char>, int),
            GitError,
        >((tag, text_of(value)->Some_0, (pre + header_line(tag, value)).len() as int)),
{
    let s = pre + header_line(tag, value) + rest;
    let i = pre.len() as int;
    let sp = i + tag.len();
    let e = sp + 1 + value.len();
    assert forall|k: int| i <= k < sp implies s[k] == tag[k - i] by {}
    assert forall|k: int| sp < k < e implies s[k] == value[k - sp - 1] by {}
    assert(s[sp] == 32u8);
    assert(s[e] == 10u8);
    assert forall|k: int| i <= k < e implies s[k] != 10u8 by {
        if k < sp {
            assert(tag[k - i] != 10u8);
        } else if k > sp {
            assert(value[k - sp - 1] != 10u8);
        }
    }
    assert forall|k: int| i <= k < sp implies s[k] != 32u8 by {
        assert(tag[k - i] != 32u8);
    }
    lemma_scan_at(s, i, e, 10);
    lemma_scan_at(s, i, sp, 32);
    assert(s.subrange(sp + 1, e) =~= value);
    assert(s.subrange(i, sp) =~= tag);
}

pub open spec fn author_word() -> Seq<u8> {
    seq![97u8, 117u8, 116u8, 104u8, 111u8, 114u8]
}

pub open spec fn committer_word() -> Seq<u8> {
    seq![99u8, 111u8, 109u8, 109u8, 105u8, 116u8, 116u8, 101u8, 114u8]
}

proof fn lemma_words_plain()
    ensures
        plain_tag(tree_tag()),
        plain_tag(parent_tag()),
        plain_tag(author_word()),
        plain_tag(committer_word()),
        author_word() != parent_tag(),
        is_ascii_bytes(tree_tag()),
        is_ascii_bytes(parent_tag()),
        is_ascii_bytes(author_word()),
        is_ascii_bytes(committer_word()),
{
    assert(author_word()[0] != parent_tag()[0]);
}

/// A commit with a `parent` line decodes with that parent, and its message is
/// every byte after the header lines, a leading blank line included.
pub proof fn commit_with_parent(
    sha: Seq<char>,
    tree: Seq<u8>,
    parent: Seq<u8>,
    author: Seq<u8>,
    committer: Seq<u8>,
    message: Seq<u8>,
)
    requires
        one_line(tree) && one_line(parent) && one_line(author) && one_line(committer),
        text_of(tree) is Some && text_of(parent) is Some,
        text_of(author) is Some && text_of(committer) is Some,
        text_of(message) is Some,
    ensures
        commit_of(
            sha,
            header_line(tree_tag(), tree) + header_line(parent_tag(), parent) + header_line(
                author_word(),
                author,
            ) + header_line(committer_word(), committer) + message,
        ) == Ok::<CommitView, GitError>(
            CommitView {
                sha,
                tree: text_of(tree)->Some_0,
                parent: Some(text_of(parent)->Some_0),
                author: text_of(author)->Some_0,
                committer: text_of(committer)->Some_0,
                message: text_of(message)->Some_0,
            },
        ),
{
    lemma_words_plain();
    let l0 = header_line(tree_tag(), tree);
    let l1 = header_line(parent_tag(), parent);
    let l2 = header_line(author_word(), author);
    let l3 = header_line(committer_word(), committer);
    let s = l0 + l1 + l2 + l3 + message;
    let e = Seq::<u8>::empty();
    assert(s =~= e + l0 + (l1 + l2 + l3 + message));
    lemma_field_line(e, tree_tag(), tree, l1 + l2 + l3 + message);
    assert(e + l0 =~= l0);
    assert(s =~= l0 + l1 + (l2 + l3 + message));
    lemma_field_line(l0, parent_tag(), parent, l2 + l3 + message);
    assert(s =~= (l0 + l1) + l2 + (l3 + message));
    lemma_field_line(l0 + l1, author_word(), author, l3 + message);
    assert(s =~= (l0 + l1 + l2) + l3 + message);
    lemma_field_line(l0 + l1 + l2, committer_word(), committer, message);
    assert(s.subrange((l0 + l1 + l2 + l3).len() as int, s.len() as int) =~= message);
}

/// A commit without a `parent` line decodes with no parent, and its message
/// is every byte after the header lines, a leading blank line included.
pub proof fn commit_without_parent(
    sha: Seq<char>,
    tree: Seq<u8>,
    author: Seq<u8>,
    committer: Seq<u8>,
    message: Seq<u8>,
)
    requires
        one_line(tree) && one_line(author) && one_line(committer),
        text_of(tree) is Some && text_of(author) is Some,
        text_of(committer) is Some && text_of(message) is Some,
    ensures
        commit_of(
            sha,
            header_line(tree_tag(), tree) + header_line(author_word(), author) + header_line(
                committer_word(),
                committer,
            ) + message,
        ) == Ok::<CommitView, GitError>(
            CommitView {
                sha,
                tree: text_of(tree)->Some_0,
                parent: None,
                author: text_of(author)->Some_0,
                committer: text_of(committer)->Some_0,
                message: text_of(message)->Some_0,
            },
        ),
{
    lemma_words_plain();
    let l0 = header_line(tree_tag(), tree);
    let l2 = header_line(author_word(), author);
    let l3 = header_line(committer_word(), committer);
    let s = l0 + l2 + l3 + message;
    let e = Seq::<u8>::empty();
    assert(s =~= e + l0 + (l2 + l3 + message));
    lemma_field_line(e, tree_tag(), tree, l2 + l3 + message);
    assert(e + l0 =~= l0);
    assert(s =~= l0 + l2 + (l3 + message));
    lemma_field_line(l0, author_word(), author, l3 + message);
    assert(s =~= (l0 + l2) + l3 + message);
    lemma_field_line(l0 + l2, committer_word(), committer, message);
    assert(s.subrange((l0 + l2 + l3).len() as int, s.len() as int) =~= message);
}


/// A lowercase hexadecimal digit.
pub open spec fn is_lower_hex(c: char) -> bool {
    ('0' <= c <= '9') || ('a' <= c <= 'f')
}

/// Each byte gives two lowercase hexadecimal digits.
pub proof fn lemma_hex_shape(b: Seq<u8>)
    ensures
        hex_of(b).len() == 2 * b.len(),
        forall|i: int| 0 <= i < hex_of(b).len() ==> is_lower_hex(#[trigger] hex_of(b)[i]),
    decreases b.len(),
{
    if b.len() > 0 {
        lemma_hex_shape(b.drop_first());
        let d = seq![hex_digit(b[0] / 16), hex_digit(b[0] % 16)];
        assert(is_lower_hex(d[0]) && is_lower_hex(d[1]));
        assert forall|i: int| 0 <= i < hex_of(b).len() implies is_lower_hex(
            #[trigger] hex_of(b)[i],
        ) by {
            if i >= 2 {
                assert(hex_of(b)[i] == hex_of(b.drop_first())[i - 2]);
            }
        }
    }
}

/// The bytes of one tree entry: mode, a space, name, a zero byte, hash.
pub open spec fn entry_bytes(e: (Seq<u8>, Seq<u8>, Seq<u8>)) -> Seq<u8> {
    e.0 + seq![32u8] + e.1 + seq![0u8] + e.2
}

/// The bytes of a tree body holding the given entries in order.
pub open spec fn tree_bytes(es: Seq<(Seq<u8>, Seq<u8>, Seq<u8>)>) -> Seq<u8>
    decreases es.len(),
{
    if es.len() == 0 {
        Seq::empty()
    } else {
        entry_bytes(es[0]) + tree_bytes(es.drop_first())
    }
}

/// An entry that a tree body can hold: a mode of decimal digits, a name
/// of valid text without zero byte, and a twenty-byte hash.
pub open spec fn storable_entry(e: (Seq<u8>, Seq<u8>, Seq<u8>)) -> bool {
    &&& e.0.len() > 0
    &&& forall|i: int| 0 <= i < e.0.len() ==> 48 <= #[trigger] e.0[i] <= 57
    &&& forall|i: int| 0 <= i < e.1.len() ==> #[trigger] e.1[i] != 0u8
    &&& e.2.len() == 20
    &&& text_of(e.1) is Some
}

/// The entry that decoding should give for stored entry bytes: the mode's
/// digits, the name's text, the hash in hexadecimal.
pub open spec fn entry_view_of(e: (Seq<u8>, Seq<u8>, Seq<u8>)) -> EntryView {
    EntryView { mode: ascii_chars(e.0), filename: text_of(e.1)->Some_0, sha: hex_of(e.2) }
}

proof fn lemma_entries_from(pre: Seq<u8>, es: Seq<(Seq<u8>, Seq<u8>, Seq<u8>)>)
    requires
        forall|k: int| 0 <= k < es.len() ==> storable_entry(#[trigger] es[k]),
    ensures
        entries_from(pre + tree_bytes(es), pre.len() as int) == Ok::<Seq<EntryView>, GitError>(
            es.map_values(|e: (Seq<u8>, Seq<u8>, Seq<u8>)| entry_view_of(e)),
        ),
    decreases es.len(),
{
    let s = pre + tree_bytes(es);
    let i = pre.len() as int;
    if es.len() == 0 {
        assert(es.map_values(|e: (Seq<u8>, Seq<u8>, Seq<u8>)| entry_view_of(e)) =~= Seq::<
            EntryView,
        >::empty());
    } else {
        let e0 = es[0];
        assert(storable_entry(e0));
        assert(is_ascii_bytes(e0.0));
        let rest = es.drop_first();
        assert forall|k: int| 0 <= k < rest.len() implies storable_entry(#[trigger] rest[k]) by {
            assert(rest[k] == es[k + 1]);
        }
        let sp = i + e0.0.len();
        let z = sp + 1 + e0.1.len();
        let n = z + 21;
        assert(s =~= pre + entry_bytes(e0) + tree_bytes(rest));
        assert forall|k: int| i <= k < sp implies s[k] == e0.0[k - i] by {}
        assert forall|k: int| sp < k < z implies s[k] == e0.1[k - sp - 1] by {}
        assert(s[sp] == 32u8);
        assert(s[z] == 0u8);
        assert forall|k: int| i <= k < z implies s[k] != 0u8 by {
            if k < sp {
                assert(e0.0[k - i] != 0u8);
            } else if k > sp {
                assert(e0.1[k - sp - 1] != 0u8);
            }
        }
        assert forall|k: int| i <= k < sp implies s[k] != 32u8 by {
            assert(e0.0[k - i] != 32u8);
        }
        lemma_scan_at(s, i, z, 0);
        lemma_scan_at(s, i, sp, 32);
        assert(s.subrange(i, sp) =~= e0.0);
        assert(s.subrange(sp + 1, z) =~= e0.1);
        assert(s.subrange(z + 1, n) =~= e0.2);
        assert(entry_at(s, i) == Ok::<(EntryView, int), GitError>((entry_view_of(e0), n)));
        let pre2 = pre + entry_bytes(e0);
        assert(s =~= pre2 + tree_bytes(rest));
        lemma_entries_from(pre2, rest);
        assert(es.map_values(|e: (Seq<u8>, Seq<u8>, Seq<u8>)| entry_view_of(e)) =~= seq![
            entry_view_of(e0),
        ] + rest.map_values(|e: (Seq<u8>, Seq<u8>, Seq<u8>)| entry_view_of(e)));
    }
}

/// A tree body decodes to its entries in the order in which it holds them,
/// each hash shown as forty lowercase hexadecimal digits.
pub proof fn tree_keeps_entries(sha: Seq<char>, es: Seq<(Seq<u8>, Seq<u8>, Seq<u8>)>)
    requires
        forall|k: int| 0 <= k < es.len() ==> storable_entry(#[trigger] es[k]),
    ensures
        tree_of(sha, tree_bytes(es)) == Ok::<TreeView, GitError>(
            TreeView {
                sha,
                entries: es.map_values(|e: (Seq<u8>, Seq<u8>, Seq<u8>)| entry_view_of(e)),
            },
        ),
        forall|k: int|
            0 <= k < es.len() ==> {
                &&& (#[trigger] entry_view_of(es[k])).sha.len() == 40
                &&& forall|i: int|
                    0 <= i < 40 ==> is_lower_hex(#[trigger] entry_view_of(es[k]).sha[i])
            },
{
    lemma_entries_from(Seq::empty(), es);
    assert(Seq::<u8>::empty() + tree_bytes(es) =~= tree_bytes(es));
    assert forall|k: int| 0 <= k < es.len() implies {
        &&& (#[trigger] entry_view_of(es[k])).sha.len() == 40
        &&& forall|i: int| 0 <= i < 40 ==> is_lower_hex(#[trigger] entry_view_of(es[k]).sha[i])
    } by {
        assert(storable_entry(es[k]));
        lemma_hex_shape(es[k].2);
    }
}

} // verus!

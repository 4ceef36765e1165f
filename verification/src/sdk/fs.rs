//! Filesystem.
//!
//! A simple in-memory filesystem shared by all tasks of a system: a flat, path-keyed
//! store in which listing by prefix gives directory-like grouping. Paths are kept in
//! the order of their UTF-8 bytes.
use vstd::prelude::*;
use vstd::slice::slice_to_vec;
use vstd::string::StrSliceExecFns;
use vstd::utf8::encode_utf8;

verus! {

/// Whether a character has the Unicode property White_Space.
pub open spec fn is_white_space(c: char) -> bool {
    let u = c as u32;
    ||| 0x9 <= u <= 0xd
    ||| u == 0x20
    ||| u == 0x85
    ||| u == 0xa0
    ||| u == 0x1680
    ||| 0x2000 <= u <= 0x200a
    ||| u == 0x2028
    ||| u == 0x2029
    ||| u == 0x202f
    ||| u == 0x205f
    ||| u == 0x3000
}

/// A well-formed path: not empty, and without whitespace or quoting characters.
pub open spec fn valid_path(path: Seq<char>) -> bool {
    &&& path.len() > 0
    &&& forall|i: int|
        0 <= i < path.len() ==> !is_white_space(#[trigger] path[i]) && path[i] != '\'' && path[i]
            != '"'
}

/// `a` stands before `b` in the order of bytes.
pub open spec fn bytes_before(a: Seq<u8>, b: Seq<u8>) -> bool
    decreases a.len(),
{
    if b.len() == 0 {
        false
    } else if a.len() == 0 {
        true
    } else if a[0] == b[0] {
        bytes_before(a.drop_first(), b.drop_first())
    } else {
        a[0] < b[0]
    }
}

/// The order of bytes is total.
proof fn lemma_total(a: Seq<u8>, b: Seq<u8>)
    ensures
        bytes_before(a, b) || bytes_before(b, a) || a == b,
        !(bytes_before(a, b) && bytes_before(b, a)),
        a == b ==> !bytes_before(a, b),
    decreases a.len(),
{
    if a.len() > 0 && b.len() > 0 {
        lemma_total(a.drop_first(), b.drop_first());
        if a[0] == b[0] && a.drop_first() == b.drop_first() {
            assert(a =~= seq![a[0]] + a.drop_first());
            assert(b =~= seq![b[0]] + b.drop_first());
        }
    } else if a.len() == 0 && b.len() == 0 {
        assert(a =~= b);
    }
}

/// The order of bytes is transitive.
proof fn lemma_transitive(a: Seq<u8>, b: Seq<u8>, c: Seq<u8>)
    requires
        bytes_before(a, b),
        bytes_before(b, c),
    ensures
        bytes_before(a, c),
    decreases a.len(),
{
    if a.len() > 0 && a[0] == b[0] && b[0] == c[0] {
        lemma_transitive(a.drop_first(), b.drop_first(), c.drop_first());
    }
}

/// Where one byte string stands relative to another.
#[derive(Clone, Copy, PartialEq, Eq, Structural)]
enum Place {
    Before,
    Same,
    After,
}

/// Where `a` stands relative to `b`.
fn place_of(a: &[u8], b: &[u8]) -> (p: Place)
    ensures
        match p {
            Place::Before => bytes_before(a@, b@),
            Place::Same => a@ == b@,
            Place::After => bytes_before(b@, a@),
        },
{
    let mut i: usize = 0;
    assert(a@.subrange(0, a@.len() as int) =~= a@);
    assert(b@.subrange(0, b@.len() as int) =~= b@);
    while i < a.len() && i < b.len()
        invariant
            i <= a@.len(),
            i <= b@.len(),
            forall|j: int| 0 <= j < i ==> a@[j] == b@[j],
            bytes_before(a@, b@) == bytes_before(
                a@.subrange(i as int, a@.len() as int),
                b@.subrange(i as int, b@.len() as int),
            ),
            bytes_before(b@, a@) == bytes_before(
                b@.subrange(i as int, b@.len() as int),
                a@.subrange(i as int, a@.len() as int),
            ),
        decreases a@.len() - i,
    {
        let ghost ra = a@.subrange(i as int, a@.len() as int);
        let ghost rb = b@.subrange(i as int, b@.len() as int);
        assert(ra.drop_first() =~= a@.subrange(i + 1, a@.len() as int));
        assert(rb.drop_first() =~= b@.subrange(i + 1, b@.len() as int));
        if a[i] < b[i] {
            return Place::Before;
        }
        if a[i] > b[i] {
            return Place::After;
        }
        i = i + 1;
    }
    if i < b.len() {
        Place::Before
    } else if i < a.len() {
        Place::After
    } else {
        assert(a@ =~= b@);
        Place::Same
    }
}

/// Whether `prefix` starts `s`.
fn starts_with(s: &[u8], prefix: &[u8]) -> (r: bool)
    ensures
        r == prefix@.is_prefix_of(s@),
{
    if prefix.len() > s.len() {
        return false;
    }
    let mut i: usize = 0;
    while i < prefix.len()
        invariant
            i <= prefix@.len() <= s@.len(),
            forall|j: int| 0 <= j < i ==> prefix@[j] == s@[j],
        decreases prefix@.len() - i,
    {
        if prefix[i] != s[i] {
            assert(s@.subrange(0, prefix@.len() as int)[i as int] != prefix@[i as int]);
            return false;
        }
        i = i + 1;
    }
    assert(s@.subrange(0, prefix@.len() as int) =~= prefix@);
    true
}

/// A stored file.
struct File {
    path: String,
    data: Vec<u8>,
}

/// A stored file by its bytes.
pub ghost struct Stored {
    pub path: Seq<u8>,
    pub data: Seq<u8>,
}

/// Paths ascend in the order of bytes.
pub open spec fn in_order(files: Seq<Stored>) -> bool {
    forall|i: int, j: int|
        0 <= i < j < files.len() ==> bytes_before((#[trigger] files[i]).path, (
        #[trigger] files[j]).path)
}

/// The file at `path`.
pub open spec fn file_at(files: Seq<Stored>, path: Seq<u8>, i: int) -> bool {
    0 <= i < files.len() && files[i].path == path
}

/// Some file is at `path`.
pub open spec fn stored_at(files: Seq<Stored>, path: Seq<u8>) -> bool {
    exists|i: int| file_at(files, path, i)
}

/// `after` holds what `before` holds, but for `path`, at which it holds `data` (or
/// nothing, if that is `None`).
pub open spec fn holds_at(
    before: Seq<Stored>,
    after: Seq<Stored>,
    path: Seq<u8>,
    data: Option<Seq<u8>>,
) -> bool {
    &&& forall|f: Stored|
        f.path != path ==> (#[trigger] after.contains(f) <==> before.contains(f))
    &&& match data {
        Some(d) => after.contains(Stored { path, data: d }) && forall|f: Stored|
            #[trigger] after.contains(f) && f.path == path ==> f.data == d,
        None => !stored_at(after, path),
    }
}

/// The paths of files that start with `prefix`, in order.
pub open spec fn paths_under(files: Seq<Stored>, prefix: Seq<u8>) -> Seq<Seq<u8>>
    decreases files.len(),
{
    if files.len() == 0 {
        Seq::empty()
    } else if prefix.is_prefix_of(files.last().path) {
        paths_under(files.drop_last(), prefix).push(files.last().path)
    } else {
        paths_under(files.drop_last(), prefix)
    }
}

/// The UTF-8 bytes of a list of strings.
pub open spec fn utf8_of(names: Seq<String>) -> Seq<Seq<u8>> {
    Seq::new(names.len(), |i: int| encode_utf8(names[i]@))
}

/// An in-memory filesystem.
pub struct Filesystem {
    files: Vec<File>,
}

impl View for Filesystem {
    type V = Seq<Stored>;

    closed spec fn view(&self) -> Seq<Stored> {
        Seq::new(
            self.files@.len(),
            |i: int|
                Stored { path: encode_utf8(self.files@[i].path@), data: self.files@[i].data@ },
        )
    }
}

impl Filesystem {
    /// Paths ascend, so that none is stored twice.
    pub open spec fn wf(&self) -> bool {
        in_order(self@)
    }

    /// Create an empty filesystem.
    pub fn new() -> (fs: Filesystem)
        ensures
            fs.wf(),
            fs@ == Seq::<Stored>::empty(),
    {
        let fs = Filesystem { files: Vec::new() };
        assert(fs@ =~= Seq::<Stored>::empty());
        fs
    }

    /// Whether `path` is a well-formed path: non-empty and containing no whitespace
    /// or quoting characters.
    pub fn is_valid_path(path: &str) -> (r: bool)
        ensures
            r == valid_path(path@),
    {
        let n: usize = path.unicode_len();
        if n == 0 {
            return false;
        }
        let mut i: usize = 0;
        while i < n
            invariant
                i <= n,
                n == path@.len(),
                n > 0,
                forall|j: int|
                    0 <= j < i ==> !is_white_space(#[trigger] path@[j]) && path@[j] != '\''
                        && path@[j] != '"',
            decreases n - i,
        {
            let c: char = path.get_char(i);
            let u: u32 = c as u32;
            let space: bool = (0x9 <= u && u <= 0xd) || u == 0x20 || u == 0x85 || u == 0xa0 || u
                == 0x1680 || (0x2000 <= u && u <= 0x200a) || u == 0x2028 || u == 0x2029 || u
                == 0x202f || u == 0x205f || u == 0x3000;
            assert(space == is_white_space(path@[i as int]));
            if space || c == '\'' || c == '"' {
                return false;
            }
            i = i + 1;
        }
        true
    }

    /// Where `path` is stored, or where it would be.
    fn position(&self, path: &str) -> (r: (bool, usize))
        requires
            self.wf(),
        ensures
            r.1 <= self@.len(),
            r.0 ==> file_at(self@, encode_utf8(path@), r.1 as int),
            !r.0 ==> !stored_at(self@, encode_utf8(path@)),
            forall|i: int|
                0 <= i < r.1 ==> bytes_before((#[trigger] self@[i]).path, encode_utf8(path@)),
            forall|i: int|
                r.1 <= i < self@.len() && !(r.0 && i == r.1) ==> bytes_before(
                    encode_utf8(path@),
                    (#[trigger] self@[i]).path,
                ),
    {
        let ghost p = encode_utf8(path@);
        let mut i: usize = 0;
        while i < self.files.len()
            invariant
                self.wf(),
                p == encode_utf8(path@),
                i <= self@.len(),
                self@.len() == self.files@.len(),
                forall|j: int| 0 <= j < i ==> bytes_before((#[trigger] self@[j]).path, p),
            decreases self@.len() - i,
        {
            match place_of(self.files[i].path.as_str().as_bytes(), path.as_bytes()) {
                Place::Before => {},
                Place::Same => {
                    assert(self@[i as int].path == p);
                    return (true, i);
                },
                Place::After => {
                    proof {
                        assert(bytes_before(p, self@[i as int].path));
                        assert forall|j: int| i <= j < self@.len() implies bytes_before(
                            p,
                            (#[trigger] self@[j]).path,
                        ) by {
                            if j > i {
                                lemma_transitive(p, self@[i as int].path, self@[j].path);
                            }
                        }
                        assert forall|j: int| !file_at(self@, p, j) by {
                            if 0 <= j < self@.len() {
                                lemma_total(self@[j].path, p);
                            }
                        }
                    }
                    return (false, i);
                },
            }
            i = i + 1;
        }
        assert forall|j: int| !file_at(self@, p, j) by {
            if 0 <= j < self@.len() {
                lemma_total(self@[j].path, p);
            }
        }
        (false, i)
    }

    /// Write `data` to `path`, creating or replacing it. Returns `false` if the path
    /// is invalid.
    pub fn write(&mut self, path: &str, data: &[u8]) -> (r: bool)
        requires
            old(self).wf(),
        ensures
            final(self).wf(),
            r == valid_path(path@),
            !r ==> *final(self) == *old(self),
            r ==> holds_at(old(self)@, final(self)@, encode_utf8(path@), Some(data@)),
            r ==> final(self)@.len() == if stored_at(old(self)@, encode_utf8(path@)) {
                old(self)@.len()
            } else {
                old(self)@.len() + 1
            },
    {
        if !Filesystem::is_valid_path(path) {
            return false;
        }
        let ghost p = encode_utf8(path@);
        let ghost before = self@;
        let file = File { path: path.to_owned(), data: slice_to_vec(data) };
        let ghost new = Stored { path: p, data: data@ };
        let (found, i) = self.position(path);
        if found {
            self.files[i] = file;
            proof {
                assert(self@ =~= before.update(i as int, new));
                assert(stored_at(before, p));
                lemma_replaced(before, i as int, new);
            }
        } else {
            self.files.insert(i, file);
            proof {
                assert(self@ =~= before.insert(i as int, new));
                lemma_inserted(before, i as int, new);
            }
        }
        true
    }

    /// Read the contents of `path`, or `None` if it does not exist.
    pub fn read(&self, path: &str) -> (r: Option<Vec<u8>>)
        requires
            self.wf(),
        ensures
            match r {
                Some(d) => self@.contains(Stored { path: encode_utf8(path@), data: d@ }),
                None => !stored_at(self@, encode_utf8(path@)),
            },
    {
        let (found, i) = self.position(path);
        if found {
            let d: Vec<u8> = slice_to_vec(self.files[i].data.as_slice());
            assert(self@[i as int] == Stored { path: encode_utf8(path@), data: d@ });
            Some(d)
        } else {
            None
        }
    }

    /// Delete `path`. Returns whether a file was removed.
    pub fn delete(&mut self, path: &str) -> (r: bool)
        requires
            old(self).wf(),
        ensures
            final(self).wf(),
            r == stored_at(old(self)@, encode_utf8(path@)),
            holds_at(old(self)@, final(self)@, encode_utf8(path@), None),
            final(self)@.len() == if r {
                old(self)@.len() - 1
            } else {
                old(self)@.len() as int
            },
    {
        let ghost p = encode_utf8(path@);
        let ghost before = self@;
        let (found, i) = self.position(path);
        if found {
            self.files.remove(i);
            proof {
                assert(stored_at(before, p));
                assert(self@ =~= before.remove(i as int));
                lemma_removed(before, i as int, p);
            }
        }
        found
    }

    /// Whether `path` exists.
    pub fn path_exists(&self, path: &str) -> (r: bool)
        requires
            self.wf(),
        ensures
            r == stored_at(self@, encode_utf8(path@)),
    {
        self.position(path).0
    }

    /// All paths beginning with `prefix`, sorted. An empty prefix lists every path.
    pub fn list(&self, prefix: &str) -> (names: Vec<String>)
        ensures
            utf8_of(names@) == paths_under(self@, encode_utf8(prefix@)),
    {
        let mut names: Vec<String> = Vec::new();
        let mut i: usize = 0;
        assert(utf8_of(names@) =~= Seq::<Seq<u8>>::empty());
        while i < self.files.len()
            invariant
                i <= self@.len(),
                self@.len() == self.files@.len(),
                utf8_of(names@) == paths_under(
                    self@.subrange(0, i as int),
                    encode_utf8(prefix@),
                ),
            decreases self@.len() - i,
        {
            proof {
                let next = self@.subrange(0, i + 1);
                assert(next.drop_last() =~= self@.subrange(0, i as int));
                assert(next.last() == self@[i as int]);
            }
            let ghost had = utf8_of(names@);
            let path: &str = self.files[i].path.as_str();
            if starts_with(path.as_bytes(), prefix.as_bytes()) {
                names.push(path.to_owned());
                assert(utf8_of(names@) =~= had.push(self@[i as int].path));
            }
            i = i + 1;
        }
        assert(self@.subrange(0, self@.len() as int) =~= self@);
        names
    }

    /// Number of files stored.
    pub fn len(&self) -> (n: usize)
        ensures
            n == self@.len(),
    {
        self.files.len()
    }

    /// Whether the filesystem is empty.
    pub fn is_empty(&self) -> (r: bool)
        ensures
            r == (self@.len() == 0),
    {
        self.files.len() == 0
    }
}

impl Default for Filesystem {
    fn default() -> (fs: Filesystem)
        ensures
            fs.wf(),
            fs@ == Seq::<Stored>::empty(),
    {
        Filesystem::new()
    }
}

proof fn lemma_replaced(files: Seq<Stored>, i: int, new: Stored)
    requires
        in_order(files),
        0 <= i < files.len(),
        files[i].path == new.path,
    ensures
        in_order(files.update(i, new)),
        holds_at(files, files.update(i, new), new.path, Some(new.data)),
{
    let after = files.update(i, new);
    assert forall|a: int, b: int| 0 <= a < b < after.len() implies bytes_before(
        (#[trigger] after[a]).path,
        (#[trigger] after[b]).path,
    ) by {
        assert(after[a].path == files[a].path && after[b].path == files[b].path);
    }
    assert(after[i] == new);
    assert forall|f: Stored| f.path != new.path implies (#[trigger] after.contains(f)
        <==> files.contains(f)) by {
        if after.contains(f) {
            let a = choose|a: int| 0 <= a < after.len() && after[a] == f;
            assert(files[a] == f);
        }
        if files.contains(f) {
            let a = choose|a: int| 0 <= a < files.len() && files[a] == f;
            assert(after[a] == f);
        }
    }
    assert forall|f: Stored| #[trigger] after.contains(f) && f.path == new.path implies f.data
        == new.data by {
        let a = choose|a: int| 0 <= a < after.len() && after[a] == f;
        lemma_one_place(after, a, i);
    }
}

proof fn lemma_one_place(files: Seq<Stored>, a: int, b: int)
    requires
        in_order(files),
        0 <= a < files.len(),
        0 <= b < files.len(),
        files[a].path == files[b].path,
    ensures
        a == b,
{
    lemma_total(files[a].path, files[b].path);
    if a < b {
        assert(bytes_before(files[a].path, files[b].path));
    } else if b < a {
        assert(bytes_before(files[b].path, files[a].path));
    }
}

proof fn lemma_inserted(files: Seq<Stored>, i: int, new: Stored)
    requires
        in_order(files),
        0 <= i <= files.len(),
        !stored_at(files, new.path),
        forall|j: int| 0 <= j < i ==> bytes_before((#[trigger] files[j]).path, new.path),
        forall|j: int|
            i <= j < files.len() ==> bytes_before(new.path, (#[trigger] files[j]).path),
    ensures
        in_order(files.insert(i, new)),
        holds_at(files, files.insert(i, new), new.path, Some(new.data)),
{
    let after = files.insert(i, new);
    assert forall|a: int, b: int| 0 <= a < b < after.len() implies bytes_before(
        (#[trigger] after[a]).path,
        (#[trigger] after[b]).path,
    ) by {
        if a != i {
            assert(after[a] == files[if a < i {
                a
            } else {
                a - 1
            }]);
        }
        if b != i {
            assert(after[b] == files[if b < i {
                b
            } else {
                b - 1
            }]);
        }
    }
    assert(after[i] == new);
    assert forall|f: Stored| f.path != new.path implies (#[trigger] after.contains(f)
        <==> files.contains(f)) by {
        if after.contains(f) {
            let a = choose|a: int| 0 <= a < after.len() && after[a] == f;
            assert(files[if a < i {
                a
            } else {
                a - 1
            }] == f);
        }
        if files.contains(f) {
            let a = choose|a: int| 0 <= a < files.len() && files[a] == f;
            assert(after[if a < i {
                a
            } else {
                a + 1
            }] == f);
        }
    }
    assert forall|f: Stored| #[trigger] after.contains(f) && f.path == new.path implies f.data
        == new.data by {
        let a = choose|a: int| 0 <= a < after.len() && after[a] == f;
        lemma_one_place(after, a, i);
    }
}

proof fn lemma_removed(files: Seq<Stored>, i: int, path: Seq<u8>)
    requires
        in_order(files),
        0 <= i < files.len(),
        files[i].path == path,
    ensures
        in_order(files.remove(i)),
        holds_at(files, files.remove(i), path, None),
{
    let after = files.remove(i);
    assert forall|a: int, b: int| 0 <= a < b < after.len() implies bytes_before(
        (#[trigger] after[a]).path,
        (#[trigger] after[b]).path,
    ) by {
        assert(after[a] == files[if a < i {
            a
        } else {
            a + 1
        }]);
        assert(after[b] == files[if b < i {
            b
        } else {
            b + 1
        }]);
    }
    assert forall|f: Stored| f.path != path implies (#[trigger] after.contains(f)
        <==> files.contains(f)) by {
        if after.contains(f) {
            let a = choose|a: int| 0 <= a < after.len() && after[a] == f;
            assert(files[if a < i {
                a
            } else {
                a + 1
            }] == f);
        }
        if files.contains(f) {
            let a = choose|a: int| 0 <= a < files.len() && files[a] == f;
            assert(after[if a < i {
                a
            } else {
                a - 1
            }] == f);
        }
    }
    assert forall|j: int| !file_at(after, path, j) by {
        if 0 <= j < after.len() && after[j].path == path {
            let a = if j < i {
                j
            } else {
                j + 1
            };
            assert(after[j] == files[a]);
            lemma_one_place(files, a, i);
        }
    }
}

/// What was written last to a path is what is read there: a store holds one file at
/// a path at most.
pub proof fn written_file_is_read(before: Seq<Stored>, after: Seq<Stored>, path: Seq<u8>, data: Seq<u8>, got: Seq<u8>)
    requires
        holds_at(before, after, path, Some(data)),
        after.contains(Stored { path, data: got }),
    ensures
        got == data,
        stored_at(after, path),
{
    let f = Stored { path, data };
    assert(after.contains(f));
    let i = choose|i: int| 0 <= i < after.len() && after[i] == f;
    assert(file_at(after, path, i));
}

/// What is listed under a prefix are the stored paths that start with it, in
/// ascending order.
pub proof fn listing_is_exact(files: Seq<Stored>, prefix: Seq<u8>)
    requires
        in_order(files),
    ensures
        forall|p: Seq<u8>|
            #[trigger] paths_under(files, prefix).contains(p) <==> stored_at(files, p)
                && prefix.is_prefix_of(p),
        forall|i: int, j: int|
            0 <= i < j < paths_under(files, prefix).len() ==> bytes_before(
                #[trigger] paths_under(files, prefix)[i],
                #[trigger] paths_under(files, prefix)[j],
            ),
    decreases files.len(),
{
    if files.len() > 0 {
        let init = files.drop_last();
        assert(in_order(init)) by {
            assert forall|a: int, b: int| 0 <= a < b < init.len() implies bytes_before(
                (#[trigger] init[a]).path,
                (#[trigger] init[b]).path,
            ) by {
                assert(init[a] == files[a] && init[b] == files[b]);
            }
        }
        listing_is_exact(init, prefix);
        let had = paths_under(init, prefix);
        let all = paths_under(files, prefix);
        let last = files.last().path;
        assert forall|p: Seq<u8>| stored_at(files, p) <==> stored_at(init, p) || p == last by {
            if stored_at(files, p) {
                let i = choose|i: int| file_at(files, p, i);
                if i < init.len() {
                    assert(file_at(init, p, i));
                }
            }
            if stored_at(init, p) {
                let i = choose|i: int| file_at(init, p, i);
                assert(file_at(files, p, i));
            }
            if p == last {
                assert(file_at(files, p, files.len() - 1));
            }
        }
        assert forall|p: Seq<u8>| #[trigger] all.contains(p) <==> stored_at(files, p)
            && prefix.is_prefix_of(p) by {
            assert(had.contains(p) <==> stored_at(init, p) && prefix.is_prefix_of(p));
            if prefix.is_prefix_of(last) {
                if all.contains(p) {
                    let i = choose|i: int| 0 <= i < all.len() && all[i] == p;
                    if i < had.len() {
                        assert(had[i] == p);
                    }
                }
                if had.contains(p) {
                    let i = choose|i: int| 0 <= i < had.len() && had[i] == p;
                    assert(all[i] == p);
                }
                if p == last {
                    assert(all[all.len() - 1] == p);
                }
            }
        }
        assert forall|i: int, j: int| 0 <= i < j < all.len() implies bytes_before(
            #[trigger] all[i],
            #[trigger] all[j],
        ) by {
            if j < had.len() {
                assert(all[i] == had[i] && all[j] == had[j]);
            } else {
                assert(had.contains(had[i]));
                let k = choose|k: int| file_at(init, had[i], k);
                assert(files[k].path == had[i]);
                assert(bytes_before(files[k].path, files[files.len() - 1].path));
            }
        }
    }
}

/// Paths stand in the order of their first byte that differs; one that another goes on from
/// stands before it.
pub proof fn paths_stand_by_their_first_difference(a: Seq<u8>, b: Seq<u8>, k: int)
    requires
        0 <= k <= a.len(),
        k <= b.len(),
        forall|i: int| 0 <= i < k ==> a[i] == b[i],
        k == a.len() || k == b.len() || a[k] != b[k],
    ensures
        k < a.len() && k < b.len() ==> (bytes_before(a, b) <==> a[k] < b[k]),
        k == a.len() ==> (bytes_before(a, b) <==> a.len() < b.len()),
        k == b.len() ==> !bytes_before(a, b),
    decreases k,
{
    if k > 0 {
        let x = a.drop_first();
        let y = b.drop_first();
        assert forall|i: int| 0 <= i < k - 1 implies x[i] == y[i] by {
            assert(a[i + 1] == b[i + 1]);
        }
        paths_stand_by_their_first_difference(x, y, k - 1);
    }
}

/// Which paths are accepted: none that is empty or has a blank, a tab, a line end or a quote
/// in it; every other of printable ASCII characters.
pub proof fn accepted_paths(path: &str, ok: bool, i: int)
    requires
        call_ensures(Filesystem::is_valid_path, (path,), ok),
    ensures
        path@.len() == 0 ==> !ok,
        0 <= i < path@.len() && (path@[i] == ' ' || path@[i] == '\t' || path@[i] == '\n' || path@[i]
            == '\r' || path@[i] == '"' || path@[i] == '\'') ==> !ok,
        path@.len() > 0 && (forall|j: int|
            0 <= j < path@.len() ==> 0x21 <= #[trigger] path@[j] as u32 <= 0x7e && path@[j] != '"'
                && path@[j] != '\'') ==> ok,
{
    if 0 <= i < path@.len() && ok {
        assert(!is_white_space(path@[i]));
    }
}

/// Files keep what is written to them. A write to an accepted path is there, under that
/// path, whole and in place of what was there; one to any other path changes nothing. What
/// is deleted is gone. No other file changes.
pub proof fn files_keep_what_is_written(
    w: &mut Filesystem,
    mid: Filesystem,
    path: &str,
    data: &[u8],
    wrote: bool,
    ok: bool,
    got: Option<Vec<u8>>,
    other: &str,
    before: Option<Vec<u8>>,
    between: Option<Vec<u8>>,
    d: &mut Filesystem,
    end: Filesystem,
    deleted: bool,
    left: Option<Vec<u8>>,
    after: Option<Vec<u8>>,
    there: bool,
)
    requires
        old(w).wf(),
        mid == *final(w),
        mid.wf(),
        call_ensures(Filesystem::write, (w, path, data), wrote),
        call_ensures(Filesystem::is_valid_path, (path,), ok),
        call_ensures(Filesystem::read, (&mid, path), got),
        encode_utf8(other@) != encode_utf8(path@),
        call_ensures(Filesystem::read, (&*old(w), other), before),
        call_ensures(Filesystem::read, (&mid, other), between),
        *old(d) == mid,
        end == *final(d),
        end.wf(),
        call_ensures(Filesystem::delete, (d, path), deleted),
        call_ensures(Filesystem::read, (&end, path), left),
        call_ensures(Filesystem::path_exists, (&end, path), there),
        call_ensures(Filesystem::read, (&end, other), after),
    ensures
        wrote <==> ok,
        !wrote ==> mid == *old(w),
        wrote ==> (got matches Some(b) && b@ == data@),
        same_reading(before, between) && same_reading(between, after),
        wrote ==> deleted,
        left is None && !there,
{
    let p = encode_utf8(path@);
    let q = encode_utf8(other@);
    if wrote {
        let f = Stored { path: p, data: data@ };
        assert(mid@.contains(f));
        let i = choose|i: int| 0 <= i < mid@.len() && mid@[i] == f;
        assert(file_at(mid@, p, i));
        assert(stored_at(mid@, p));
    }
    if let Some(b) = left {
        let f = Stored { path: p, data: b@ };
        let i = choose|i: int| 0 <= i < end@.len() && end@[i] == f;
        assert(file_at(end@, p, i));
    }
    lemma_read_twice(old(w)@, mid@, q, before, between);
    lemma_read_twice(mid@, end@, q, between, after);
}

/// Two readings show the same: nothing both times, or the same bytes.
pub open spec fn same_reading(a: Option<Vec<u8>>, b: Option<Vec<u8>>) -> bool {
    match (a, b) {
        (Some(x), Some(y)) => x@ == y@,
        (None, None) => true,
        _ => false,
    }
}

/// Where the files at a path are the same, something is there both times or neither.
proof fn lemma_other_kept(a: Seq<Stored>, b: Seq<Stored>, path: Seq<u8>)
    requires
        forall|f: Stored| f.path == path ==> (#[trigger] b.contains(f) <==> a.contains(f)),
    ensures
        stored_at(a, path) <==> stored_at(b, path),
{
    if stored_at(a, path) {
        let i = choose|i: int| file_at(a, path, i);
        assert(a.contains(a[i]));
        assert(b.contains(a[i]));
        let j = choose|j: int| 0 <= j < b.len() && b[j] == a[i];
        assert(file_at(b, path, j));
    }
    if stored_at(b, path) {
        let i = choose|i: int| file_at(b, path, i);
        assert(b.contains(b[i]));
        assert(a.contains(b[i]));
        let j = choose|j: int| 0 <= j < a.len() && a[j] == b[i];
        assert(file_at(a, path, j));
    }
}

proof fn lemma_read_twice(
    a: Seq<Stored>,
    b: Seq<Stored>,
    path: Seq<u8>,
    x: Option<Vec<u8>>,
    y: Option<Vec<u8>>,
)
    requires
        in_order(b),
        forall|f: Stored| f.path == path ==> (#[trigger] b.contains(f) <==> a.contains(f)),
        match x {
            Some(d) => a.contains(Stored { path, data: d@ }),
            None => !stored_at(a, path),
        },
        match y {
            Some(d) => b.contains(Stored { path, data: d@ }),
            None => !stored_at(b, path),
        },
    ensures
        same_reading(x, y),
{
    lemma_other_kept(a, b, path);
    if let Some(d) = x {
        let f = Stored { path, data: d@ };
        assert(b.contains(f));
        let i = choose|i: int| 0 <= i < b.len() && b[i] == f;
        assert(file_at(b, path, i));
        if let Some(e) = y {
            let g = Stored { path, data: e@ };
            let j = choose|j: int| 0 <= j < b.len() && b[j] == g;
            lemma_one_place(b, i, j);
        }
    } else if let Some(e) = y {
        let g = Stored { path, data: e@ };
        let j = choose|j: int| 0 <= j < b.len() && b[j] == g;
        assert(file_at(b, path, j));
    }
}

} // verus!

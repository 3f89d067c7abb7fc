//! Offsets of files bundled into one split file, and the builder that
//! lays a split out.
//!
//! A bundle concatenates several files into one; a footer carries the
//! byte range of each. The builder assigns consecutive ranges and
//! serializes the footer metadata; reading the bundled bytes back is
//! plain range arithmetic.

use vstd::prelude::*;

use crate::codec::u64_le;

use vstd::utf8::encode_utf8;

verus! {

/// A byte range `[start, end)` of the bundle's body.
#[derive(Debug, Clone, Copy, PartialEq, Eq, Structural)]
pub struct FileRange {
    /// Start of the range, inclusive.
    pub start: u64,
    /// End of the range, exclusive.
    pub end: u64,
}

/// Whether two byte strings are equal.
fn bytes_eq(a: &[u8], b: &[u8]) -> (r: bool)
    ensures
        r == (a@ == b@),
{
    if a.len() != b.len() {
        proof {
            assert(a@ != b@) by {
                if a@ == b@ {
                    assert(a@.len() == b@.len());
                }
            }
        }
        return false;
    }
    let n = a.len();
    let mut i: usize = 0;
    while i < n
        invariant
            n == a@.len() == b@.len(),
            i <= n,
            forall|k: int| 0 <= k < i ==> a@[k] == b@[k],
        decreases n - i,
    {
        if a[i] != b[i] {
            proof {
                assert(a@ != b@);
            }
            return false;
        }
        i = i + 1;
    }
    proof {
        assert(a@ =~= b@);
    }
    true
}

/// The first index of `entries` whose name has these bytes.
pub open spec fn name_index(names: Seq<Seq<u8>>, name: Seq<u8>) -> int
    decreases names.len(),
{
    if names.len() == 0 {
        0
    } else if names.first() == name {
        0
    } else {
        1 + name_index(names.drop_first(), name)
    }
}

/// Whether some entry has these name bytes.
pub open spec fn has_name(names: Seq<Seq<u8>>, name: Seq<u8>) -> bool {
    exists|i: int| 0 <= i < names.len() && names[i] == name
}

/// The names of a file table, as byte strings.
pub open spec fn range_names(files: Seq<(String, FileRange)>) -> Seq<Seq<u8>> {
    files.map_values(|p: (String, FileRange)| encode_utf8(p.0@))
}

/// The names of an inline-data table, as byte strings.
pub open spec fn data_names(files: Seq<(String, Vec<u8>)>) -> Seq<Seq<u8>> {
    files.map_values(|p: (String, Vec<u8>)| encode_utf8(p.0@))
}

/// The byte ranges of the files bundled into one split: files stored in
/// the bundle's body, and small files carried inline in the footer.
pub struct BundleStorageFileOffsets {
    /// Files and their ranges in the bundle's body.
    pub files: Vec<(String, FileRange)>,
    /// Files whose bytes live in the footer itself.
    pub files_and_data: Vec<(String, Vec<u8>)>,
}

impl BundleStorageFileOffsets {
    /// Well-formedness: as in the maps a bundle footer stores, no two
    /// entries of a table share a name, and every range ends at or
    /// after its start.
    pub open spec fn wf(&self) -> bool {
        &&& forall|i: int, j: int|
            0 <= i < j < self.files@.len() ==> #[trigger] range_names(self.files@)[i]
                != #[trigger] range_names(self.files@)[j]
        &&& forall|i: int, j: int|
            0 <= i < j < self.files_and_data@.len() ==> #[trigger] data_names(
                self.files_and_data@,
            )[i] != #[trigger] data_names(self.files_and_data@)[j]
        &&& ranges_wf(*self)
    }

    /// An empty table.
    pub fn new() -> (r: BundleStorageFileOffsets)
        ensures
            r.files@.len() == 0,
            r.files_and_data@.len() == 0,
            r.wf(),
    {
        BundleStorageFileOffsets { files: Vec::new(), files_and_data: Vec::new() }
    }

    /// The byte range of the named file in the bundle's body, when it
    /// has one.
    pub fn get(&self, path: &str) -> (r: Option<FileRange>)
        requires
            self.wf(),
        ensures
            match r {
                Some(range) => {
                    &&& has_name(range_names(self.files@), encode_utf8(path@))
                    &&& range == self.files@[name_index(
                        range_names(self.files@),
                        encode_utf8(path@),
                    )].1
                },
                None => !has_name(range_names(self.files@), encode_utf8(path@)),
            },
    {
        let n = self.files.len();
        let mut i: usize = 0;
        while i < n
            invariant
                i <= n,
                n == self.files@.len(),
                forall|k: int|
                    0 <= k < i ==> #[trigger] range_names(self.files@)[k] != encode_utf8(path@),
            decreases n - i,
        {
            proof {
                assert(range_names(self.files@)[i as int] == encode_utf8(self.files@[i as int].0@));
                assert(range_names(self.files@).skip(i as int).first() == range_names(
                    self.files@,
                )[i as int]);
                assert(range_names(self.files@).skip(i as int).drop_first() =~= range_names(
                    self.files@,
                ).skip(i + 1));
            }
            if bytes_eq(self.files[i].0.as_str().as_bytes(), path.as_bytes()) {
                proof {
                    assert(has_name(range_names(self.files@), encode_utf8(path@)));
                    lemma_name_index_found(range_names(self.files@), encode_utf8(path@), i as int);
                }
                return Some(self.files[i].1);
            }
            i = i + 1;
        }
        proof {
            if has_name(range_names(self.files@), encode_utf8(path@)) {
                let t = choose|t: int|
                    0 <= t < range_names(self.files@).len() && range_names(self.files@)[t]
                        == encode_utf8(path@);
            }
        }
        None
    }

    /// Whether the named file is in the bundle, in the body or inline.
    pub fn file_exists(&self, path: &str) -> (r: bool)
        requires
            self.wf(),
        ensures
            r == (has_name(range_names(self.files@), encode_utf8(path@)) || has_name(
                data_names(self.files_and_data@),
                encode_utf8(path@),
            )),
    {
        if self.get(path).is_some() {
            return true;
        }
        let n = self.files_and_data.len();
        let mut i: usize = 0;
        while i < n
            invariant
                i <= n,
                n == self.files_and_data@.len(),
                forall|k: int|
                    0 <= k < i ==> #[trigger] data_names(self.files_and_data@)[k]
                        != encode_utf8(path@),
            decreases n - i,
        {
            proof {
                assert(data_names(self.files_and_data@)[i as int] == encode_utf8(self.files_and_data@[i as int].0@));
            }
            if bytes_eq(self.files_and_data[i].0.as_str().as_bytes(), path.as_bytes()) {
                proof {
                    assert(has_name(data_names(self.files_and_data@), encode_utf8(path@)));
                }
                return true;
            }
            i = i + 1;
        }
        proof {
            if has_name(data_names(self.files_and_data@), encode_utf8(path@)) {
                let t = choose|t: int|
                    0 <= t < data_names(self.files_and_data@).len() && data_names(
                        self.files_and_data@,
                    )[t] == encode_utf8(path@);
            }
        }
        false
    }
}

/// Byte-lexicographic order on names.
pub open spec fn bytes_le(a: Seq<u8>, b: Seq<u8>) -> bool
    decreases a.len(),
{
    if a.len() == 0 {
        true
    } else if b.len() == 0 {
        false
    } else if a.first() < b.first() {
        true
    } else if a.first() > b.first() {
        false
    } else {
        bytes_le(a.drop_first(), b.drop_first())
    }
}

/// Order on stats entries: by name bytes, then by size.
pub open spec fn stat_le(x: (Seq<u8>, u64), y: (Seq<u8>, u64)) -> bool {
    if x.0 == y.0 {
        x.1 <= y.1
    } else {
        bytes_le(x.0, y.0)
    }
}

/// A stats table, as ghost pairs of name bytes and size.
pub open spec fn stat_views(v: Seq<(String, u64)>) -> Seq<(Seq<u8>, u64)> {
    v.map_values(|p: (String, u64)| (encode_utf8(p.0@), p.1))
}

/// The unsorted stats of a table: body files with their range widths,
/// then inline files with their data lengths.
pub open spec fn raw_stats(m: BundleStorageFileOffsets) -> Seq<(Seq<u8>, u64)> {
    m.files@.map_values(
        |p: (String, FileRange)| (encode_utf8(p.0@), (p.1.end - p.1.start) as u64),
    ) + m.files_and_data@.map_values(
        |p: (String, Vec<u8>)| (encode_utf8(p.0@), p.1.len() as u64),
    )
}

/// A shared prefix does not decide the order or the equality.
proof fn lemma_bytes_le_skip(a: Seq<u8>, b: Seq<u8>, i: int)
    requires
        0 <= i <= a.len(),
        i <= b.len(),
        forall|k: int| 0 <= k < i ==> a[k] == b[k],
    ensures
        bytes_le(a, b) == bytes_le(a.skip(i), b.skip(i)),
        bytes_le(b, a) == bytes_le(b.skip(i), a.skip(i)),
        (a == b) == (a.skip(i) == b.skip(i)),
    decreases i,
{
    if i == 0 {
        assert(a.skip(0) =~= a);
        assert(b.skip(0) =~= b);
    } else {
        lemma_bytes_le_skip(a, b, i - 1);
        let sa = a.skip(i - 1);
        let sb = b.skip(i - 1);
        assert(sa.first() == a[i - 1] && sb.first() == b[i - 1]);
        assert(sa.drop_first() =~= a.skip(i));
        assert(sb.drop_first() =~= b.skip(i));
        assert((sa == sb) == (a.skip(i) == b.skip(i))) by {
            if a.skip(i) == b.skip(i) {
                assert(a.len() == b.len());
                assert forall|j: int| 0 <= j < sa.len() implies sa[j] == sb[j] by {
                    if j == 0 {
                        assert(sa[0] == a[i - 1] && sb[0] == b[i - 1]);
                    } else {
                        assert(sa[j] == a.skip(i)[j - 1]);
                        assert(sb[j] == b.skip(i)[j - 1]);
                    }
                }
                assert(sa =~= sb);
            }
            if sa == sb {
                assert(sa.drop_first() == sb.drop_first());
            }
        }
    }
}

/// Decides [`stat_le`] on two entries.
fn stat_le_exec(x: &(String, u64), y: &(String, u64)) -> (r: bool)
    ensures
        r == stat_le((encode_utf8(x.0@), x.1), (encode_utf8(y.0@), y.1)),
{
    let a = x.0.as_str().as_bytes();
    let b = y.0.as_str().as_bytes();
    let n = if a.len() < b.len() {
        a.len()
    } else {
        b.len()
    };
    let mut i: usize = 0;
    while i < n
        invariant
            n == (if a@.len() < b@.len() {
                a@.len() as int
            } else {
                b@.len() as int
            }),
            a@ == encode_utf8(x.0@),
            b@ == encode_utf8(y.0@),
            i <= n,
            forall|k: int| 0 <= k < i ==> a@[k] == b@[k],
        decreases n - i,
    {
        proof {
            lemma_bytes_le_skip(a@, b@, i as int);
            assert(a@.skip(i as int).first() == a@[i as int]);
            assert(b@.skip(i as int).first() == b@[i as int]);
        }
        if a[i] < b[i] {
            return true;
        }
        if a[i] > b[i] {
            return false;
        }
        i = i + 1;
    }
    proof {
        lemma_bytes_le_skip(a@, b@, n as int);
        if a@.len() == b@.len() {
            if a@.skip(n as int) == b@.skip(n as int) {
            } else {
                assert(a@.skip(n as int).len() == 0 && b@.skip(n as int).len() == 0);
                assert(a@.skip(n as int) =~= b@.skip(n as int));
            }
        } else if a@.len() < b@.len() {
            assert(a@.skip(n as int).len() == 0 && b@.skip(n as int).len() > 0);
            assert(a@ != b@);
        } else {
            assert(b@.skip(n as int).len() == 0 && a@.skip(n as int).len() > 0);
            assert(a@ != b@);
        }
    }
    if a.len() == b.len() {
        x.1 <= y.1
    } else {
        a.len() < b.len()
    }
}

/// Every stored range ends at or after its start.
pub open spec fn ranges_wf(m: BundleStorageFileOffsets) -> bool {
    forall|i: int|
        0 <= i < m.files@.len() ==> (#[trigger] m.files@[i]).1.start <= m.files@[i].1.end
}

impl BundleStorageFileOffsets {
    /// Every file and its size, sorted by name and then size.
    pub fn get_stats(&self) -> (r: Vec<(String, u64)>)
        requires
            self.wf(),
        ensures
            stat_views(r@).to_multiset() == raw_stats(*self).to_multiset(),
            forall|i: int, j: int|
                0 <= i < j < r@.len() ==> stat_le(
                    #[trigger] stat_views(r@)[i],
                    #[trigger] stat_views(r@)[j],
                ),
    {
        broadcast use vstd::seq_lib::group_to_multiset_ensures;

        let mut raw: Vec<(String, u64)> = Vec::new();
        let nf = self.files.len();
        let mut i: usize = 0;
        proof {
            assert(stat_views(raw@) =~= raw_stats(*self).take(0));
        }
        while i < nf
            invariant
                i <= nf,
                nf == self.files@.len(),
                ranges_wf(*self),
                stat_views(raw@) == raw_stats(*self).take(i as int),
            decreases nf - i,
        {
            let ghost before = raw@;
            let name = self.files[i].0.clone();
            let range = self.files[i].1;
            raw.push((name, range.end - range.start));
            proof {
                assert(raw_stats(*self)[i as int] == (
                    encode_utf8(self.files@[i as int].0@),
                    (self.files@[i as int].1.end - self.files@[i as int].1.start) as u64,
                ));
                assert(stat_views(raw@) =~= stat_views(before).push(raw_stats(*self)[i as int]));
                assert(raw_stats(*self).take(i + 1) =~= raw_stats(*self).take(i as int).push(
                    raw_stats(*self)[i as int],
                ));
            }
            i = i + 1;
        }
        let nd = self.files_and_data.len();
        let mut j: usize = 0;
        while j < nd
            invariant
                j <= nd,
                nd == self.files_and_data@.len(),
                nf == self.files@.len(),
                stat_views(raw@) == raw_stats(*self).take(nf + j),
            decreases nd - j,
        {
            let ghost before = raw@;
            let name = self.files_and_data[j].0.clone();
            let len = self.files_and_data[j].1.len() as u64;
            raw.push((name, len));
            proof {
                assert(raw_stats(*self)[nf + j] == (
                    encode_utf8(self.files_and_data@[j as int].0@),
                    self.files_and_data@[j as int].1@.len() as u64,
                ));
                assert(stat_views(raw@) =~= stat_views(before).push(raw_stats(*self)[nf + j]));
                assert(raw_stats(*self).take(nf + j + 1) =~= raw_stats(*self).take(
                    nf + j,
                ).push(raw_stats(*self)[nf + j]));
            }
            j = j + 1;
        }
        proof {
            assert(raw_stats(*self).take(nf + nd) =~= raw_stats(*self));
        }
        // Selection sort by name, then size.
        let ghost all = raw_stats(*self);
        let mut sorted: Vec<(String, u64)> = Vec::new();
        proof {
            assert(stat_views(sorted@).to_multiset().add(stat_views(raw@).to_multiset())
                =~= all.to_multiset()) by {
                assert(stat_views(sorted@) =~= Seq::<(Seq<u8>, u64)>::empty());
            }
        }
        while raw.len() > 0
            invariant
                stat_views(sorted@).to_multiset().add(stat_views(raw@).to_multiset())
                    == all.to_multiset(),
                forall|i: int, j: int|
                    0 <= i < j < sorted@.len() ==> stat_le(
                        #[trigger] stat_views(sorted@)[i],
                        #[trigger] stat_views(sorted@)[j],
                    ),
                forall|i: int, j: int|
                    0 <= i < sorted@.len() && 0 <= j < raw@.len() ==> stat_le(
                        #[trigger] stat_views(sorted@)[i],
                        #[trigger] stat_views(raw@)[j],
                    ),
            decreases raw.len(),
        {
            let mut min_idx: usize = 0;
            let mut k: usize = 1;
            while k < raw.len()
                invariant
                    0 <= min_idx < raw@.len(),
                    k <= raw@.len(),
                    forall|t: int|
                        0 <= t < k ==> stat_le(
                            stat_views(raw@)[min_idx as int],
                            #[trigger] stat_views(raw@)[t],
                        ),
                decreases raw.len() - k,
            {
                if stat_le_exec(&raw[k], &raw[min_idx]) && !stat_le_exec(&raw[min_idx], &raw[k]) {
                    proof {
                        lemma_stat_le_total(stat_views(raw@)[k as int], stat_views(
                            raw@,
                        )[min_idx as int]);
                        assert forall|t: int| 0 <= t < k implies stat_le(
                            stat_views(raw@)[k as int],
                            #[trigger] stat_views(raw@)[t],
                        ) by {
                            lemma_stat_le_trans(
                                stat_views(raw@)[k as int],
                                stat_views(raw@)[min_idx as int],
                                stat_views(raw@)[t],
                            );
                        }
                    }
                    min_idx = k;
                }
                proof {
                    lemma_stat_le_total(stat_views(raw@)[min_idx as int], stat_views(
                        raw@,
                    )[k as int]);
                }
                k = k + 1;
            }
            let ghost pre_sorted = sorted@;
            let ghost pre_raw = raw@;
            let m = raw.remove(min_idx);
            sorted.push(m);
            proof {
                let mv = (encode_utf8(m.0@), m.1);
                stat_views(pre_raw).to_multiset_ensures();
                stat_views(pre_sorted).to_multiset_ensures();
                assert(stat_views(pre_raw)[min_idx as int] == mv);
                assert(stat_views(raw@) =~= stat_views(pre_raw).remove(min_idx as int));
                assert(stat_views(sorted@) =~= stat_views(pre_sorted).push(mv));
                assert(stat_views(pre_raw).remove(min_idx as int).to_multiset() =~= stat_views(
                    pre_raw,
                ).to_multiset().remove(mv));
                assert(stat_views(pre_sorted).push(mv).to_multiset() =~= stat_views(
                    pre_sorted,
                ).to_multiset().insert(mv));
                assert(stat_views(pre_raw).to_multiset().count(mv) > 0) by {
                    assert(stat_views(pre_raw).contains(mv));
                }
                assert(stat_views(sorted@).to_multiset().add(stat_views(raw@).to_multiset())
                    =~= all.to_multiset());
                assert(forall|t: int|
                    0 <= t < raw@.len() ==> #[trigger] stat_views(raw@)[t] == (if t < min_idx {
                        stat_views(pre_raw)[t]
                    } else {
                        stat_views(pre_raw)[t + 1]
                    }));
            }
        }
        proof {
            assert(stat_views(sorted@).to_multiset() =~= all.to_multiset()) by {
                assert(stat_views(raw@).to_multiset() =~= vstd::multiset::Multiset::<
                    (Seq<u8>, u64),
                >::empty()) by {
                    assert(stat_views(raw@) =~= Seq::<(Seq<u8>, u64)>::empty());
                }
            }
        }
        sorted
    }
}

/// The order on stats entries is total.
proof fn lemma_stat_le_total(x: (Seq<u8>, u64), y: (Seq<u8>, u64))
    ensures
        stat_le(x, y) || stat_le(y, x),
{
    lemma_bytes_le_total(x.0, y.0);
}

/// Byte-lexicographic order is total.
proof fn lemma_bytes_le_total(a: Seq<u8>, b: Seq<u8>)
    ensures
        bytes_le(a, b) || bytes_le(b, a),
    decreases a.len(),
{
    if a.len() > 0 && b.len() > 0 && a.first() == b.first() {
        lemma_bytes_le_total(a.drop_first(), b.drop_first());
    }
}

/// The order on stats entries is transitive.
proof fn lemma_stat_le_trans(x: (Seq<u8>, u64), y: (Seq<u8>, u64), z: (Seq<u8>, u64))
    requires
        stat_le(x, y),
        stat_le(y, z),
    ensures
        stat_le(x, z),
{
    if x.0 == y.0 && y.0 == z.0 {
    } else if x.0 == y.0 {
    } else if y.0 == z.0 {
    } else {
        lemma_bytes_le_trans(x.0, y.0, z.0);
        if x.0 == z.0 {
            lemma_bytes_le_antisym(x.0, y.0);
        }
    }
}

/// Byte-lexicographic order is transitive.
proof fn lemma_bytes_le_trans(a: Seq<u8>, b: Seq<u8>, c: Seq<u8>)
    requires
        bytes_le(a, b),
        bytes_le(b, c),
    ensures
        bytes_le(a, c),
    decreases a.len(),
{
    if a.len() > 0 && b.len() > 0 && c.len() > 0 {
        if a.first() == b.first() && b.first() == c.first() {
            lemma_bytes_le_trans(a.drop_first(), b.drop_first(), c.drop_first());
        }
    }
}

/// Two names each at most the other are the same name.
proof fn lemma_bytes_le_antisym(a: Seq<u8>, b: Seq<u8>)
    requires
        bytes_le(a, b),
        bytes_le(b, a),
    ensures
        a == b,
    decreases a.len(),
{
    if a.len() > 0 && b.len() > 0 {
        lemma_bytes_le_antisym(a.drop_first(), b.drop_first());
        assert(a =~= seq![a.first()] + a.drop_first());
        assert(b =~= seq![b.first()] + b.drop_first());
    } else {
        assert(a =~= b);
    }
}

/// The first match's index is where the scan found it.
proof fn lemma_name_index_found(names: Seq<Seq<u8>>, name: Seq<u8>, i: int)
    requires
        0 <= i < names.len(),
        names[i] == name,
        forall|k: int| 0 <= k < i ==> #[trigger] names[k] != name,
    ensures
        name_index(names, name) == i,
    decreases i,
{
    if i > 0 {
        assert(forall|k: int| 0 <= k < i - 1 ==> #[trigger] names.drop_first()[k] != name);
        assert(names.drop_first()[i - 1] == names[i]);
        lemma_name_index_found(names.drop_first(), name, i - 1);
    }
}

/// A bundle: the file its bytes live in and the table of its contents.
/// Reading the actual bytes is left to unverified storage backends.
pub struct BundleStorage {
    /// Name of the file holding the bundled bytes.
    pub bundle_filename: String,
    /// The bundled files' ranges.
    pub metadata: BundleStorageFileOffsets,
}

impl BundleStorage {
    /// The names of the files contained in the bundle.
    pub fn iter_files(&self) -> (r: Vec<String>)
        ensures
            r@.map_values(|s: String| encode_utf8(s@)) == range_names(self.metadata.files@),
    {
        let mut out: Vec<String> = Vec::new();
        let n = self.metadata.files.len();
        let mut i: usize = 0;
        proof {
            assert(out@.map_values(|s: String| encode_utf8(s@)) =~= Seq::<Seq<u8>>::empty());
        }
        while i < n
            invariant
                i <= n,
                n == self.metadata.files@.len(),
                out@.map_values(|s: String| encode_utf8(s@)) =~= range_names(
                    self.metadata.files@,
                ).take(i as int),
            decreases n - i,
        {
            let ghost before = out@;
            out.push(self.metadata.files[i].0.clone());
            proof {
                assert(encode_utf8(out@.last()@) == encode_utf8(self.metadata.files@[i as int].0@));
                assert(out@.map_values(|s: String| encode_utf8(s@)) =~= before.map_values(
                    |s: String| encode_utf8(s@),
                ).push(encode_utf8(out@.last()@)));
                assert(range_names(self.metadata.files@).take(i + 1) =~= range_names(
                    self.metadata.files@,
                ).take(i as int).push(range_names(self.metadata.files@)[i as int]));
            }
            i = i + 1;
        }
        proof {
            assert(range_names(self.metadata.files@).take(n as int) =~= range_names(
                self.metadata.files@,
            ));
        }
        out
    }
}

/// The footer metadata as JSON bytes: one object under the given key,
/// mapping each file name to its two range bounds. The exact bytes are
/// whatever the serializer produces; they depend on the input alone.
pub uninterp spec fn files_json(key: Seq<char>, files: Seq<(Seq<char>, u64, u64)>) -> Seq<u8>;

/// Relies on serde_json::to_vec over ordered maps: deterministic JSON
/// bytes for the given key and file table.
#[verifier::external_body]
fn files_map_json(key: &str, files: &Vec<(String, u64, u64)>) -> (r: Vec<u8>)
    ensures
        r@ == files_json(
            key@,
            files@.map_values(|t: (String, u64, u64)| (t.0@, t.1, t.2)),
        ),
{
    let mut m = serde_json::Map::new();
    for (name, s, e) in files.iter() {
        m.insert(name.clone(), serde_json::Value::from(vec![*s, *e]));
    }
    let mut root = serde_json::Map::new();
    root.insert(key.to_string(), serde_json::Value::Object(m));
    serde_json::to_vec(&serde_json::Value::Object(root)).unwrap_or(Vec::new())
}

/// The laid-out split: every file's target range, the footer, and the
/// block boundaries a streamer reads from.
pub struct SplitPayload {
    /// Total split size in bytes.
    pub split_size: usize,
    /// Files and their target ranges in the split.
    pub files_and_offsets: Vec<(String, usize, usize)>,
    /// Byte range of the footer within the split.
    pub footer_range: (usize, usize),
    /// The footer: metadata JSON, its length, the hotcache bytes, and
    /// their length.
    pub footer_bytes: Vec<u8>,
    /// Consecutive block ranges: one per file, then the footer.
    pub block_offsets: Vec<(usize, usize)>,
}

/// The start and end block indexes covering a byte range: the start
/// block is the first ending past the range's start, the end block the
/// first ending at or past the range's end.
pub fn get_start_and_end_block_index(blocks: &Vec<(usize, usize)>, range_start: usize, range_end: usize) -> (r:
    Option<(usize, usize)>)
    ensures
        match r {
            Some((s, e)) => {
                &&& 0 <= s < blocks@.len() && blocks@[s as int].1 > range_start
                &&& forall|k: int| 0 <= k < s ==> #[trigger] blocks@[k].1 <= range_start
                &&& 0 <= e < blocks@.len() && blocks@[e as int].1 >= range_end
                &&& forall|k: int| 0 <= k < e ==> #[trigger] blocks@[k].1 < range_end
            },
            None => (forall|k: int| 0 <= k < blocks@.len() ==> #[trigger] blocks@[k].1
                <= range_start) || (forall|k: int|
                0 <= k < blocks@.len() ==> #[trigger] blocks@[k].1 < range_end),
        },
{
    let n = blocks.len();
    let mut s: usize = 0;
    while s < n && blocks[s].1 <= range_start
        invariant
            s <= n,
            n == blocks@.len(),
            forall|k: int| 0 <= k < s ==> #[trigger] blocks@[k].1 <= range_start,
        decreases n - s,
    {
        s = s + 1;
    }
    if s == n {
        return None;
    }
    let mut e: usize = 0;
    while e < n && blocks[e].1 < range_end
        invariant
            e <= n,
            n == blocks@.len(),
            forall|k: int| 0 <= k < e ==> #[trigger] blocks@[k].1 < range_end,
        decreases n - e,
    {
        e = e + 1;
    }
    if e == n {
        return None;
    }
    Some((s, e))
}

impl SplitPayload {
    /// The start and end block indexes covering a byte range of this
    /// split.
    pub fn get_start_and_end_block_index(&self, range_start: usize, range_end: usize) -> (r:
        Option<(usize, usize)>)
        ensures
            match r {
                Some((s, e)) => {
                    &&& 0 <= s < self.block_offsets@.len() && self.block_offsets@[s as int].1
                        > range_start
                    &&& 0 <= e < self.block_offsets@.len() && self.block_offsets@[e as int].1
                        >= range_end
                },
                None => (forall|k: int|
                    0 <= k < self.block_offsets@.len() ==> #[trigger] self.block_offsets@[k].1
                        <= range_start) || (forall|k: int|
                    0 <= k < self.block_offsets@.len() ==> #[trigger] self.block_offsets@[k].1
                        < range_end),
            },
    {
        get_start_and_end_block_index(&self.block_offsets, range_start, range_end)
    }
}

/// The footer's size in bytes: the metadata JSON, two length fields,
/// and the hotcache.
pub open spec fn footer_len(files: Seq<(String, FileRange)>, hotcache: Seq<u8>) -> int {
    files_json(
        "files"@,
        files.map_values(|t: (String, FileRange)| (t.0@, t.1.start, t.1.end)),
    ).len() as int + 8 + hotcache.len() + 8
}

/// Whether some added range does not fit the platform word.
pub open spec fn some_range_overflows(files: Seq<(String, FileRange)>) -> bool {
    exists|k: int|
        0 <= k < files.len() && ((#[trigger] files[k]).1.start > usize::MAX || files[k].1.end
            > usize::MAX)
}

/// Assigns consecutive byte ranges to files as they are added; the
/// footer comes last.
pub struct SplitPayloadBuilder {
    /// Files added so far and their ranges.
    pub files: Vec<(String, FileRange)>,
    /// Bytes assigned so far.
    pub current_offset: usize,
}

impl SplitPayloadBuilder {
    /// An empty layout.
    pub fn new() -> (r: SplitPayloadBuilder)
        ensures
            r.files@.len() == 0,
            r.current_offset == 0,
    {
        SplitPayloadBuilder { files: Vec::new(), current_offset: 0 }
    }

    /// Adds a file of the given size at the next free range.
    pub fn add_file(&mut self, name: &str, num_bytes: u64) -> (r: Result<(), ()>)
        ensures
            match r {
                Ok(()) => {
                    &&& old(self).current_offset + num_bytes <= usize::MAX
                    &&& final(self).current_offset == old(self).current_offset + num_bytes
                    &&& final(self).files@.len() == old(self).files@.len() + 1
                    &&& final(self).files@.take(old(self).files@.len() as int) == old(
                        self,
                    ).files@
                    &&& final(self).files@.last().0@ == name@
                    &&& final(self).files@.last().1 == (FileRange {
                        start: old(self).current_offset as u64,
                        end: (old(self).current_offset + num_bytes) as u64,
                    })
                },
                Err(()) => {
                    &&& old(self).current_offset + num_bytes > usize::MAX
                    &&& *final(self) == *old(self)
                },
            },
    {
        if num_bytes > usize::MAX as u64 - self.current_offset as u64 {
            return Err(());
        }
        let start = self.current_offset as u64;
        let end = start + num_bytes;
        self.files.push((name.to_owned(), FileRange { start, end }));
        self.current_offset = self.current_offset + num_bytes as usize;
        proof {
            assert(self.files@.take(old(self).files@.len() as int) =~= old(self).files@);
        }
        Ok(())
    }

    /// Lays the split out: the files at their assigned ranges, then the
    /// footer holding the metadata JSON, its length, the hotcache, and
    /// its length; block boundaries cover each file and the footer.
    pub fn finalize(self, hotcache: &[u8]) -> (r: Result<SplitPayload, ()>)
        ensures
            match r {
                Ok(p) => {
                    let json = files_json(
                        "files"@,
                        self.files@.map_values(
                            |t: (String, FileRange)| (t.0@, t.1.start, t.1.end),
                        ),
                    );
                    &&& p.footer_bytes@ == json + u64_le(json.len() as u64) + hotcache@ + u64_le(
                        hotcache@.len() as u64,
                    )
                    &&& p.footer_range == (
                        self.current_offset,
                        (self.current_offset + p.footer_bytes@.len()) as usize,
                    )
                    &&& p.split_size == self.current_offset + p.footer_bytes@.len()
                    &&& p.files_and_offsets@.len() == self.files@.len()
                    &&& forall|k: int|
                        0 <= k < self.files@.len() ==> (#[trigger] p.files_and_offsets@[k]).1
                            == self.files@[k].1.start && p.files_and_offsets@[k].2
                            == self.files@[k].1.end && p.files_and_offsets@[k].0@
                            == self.files@[k].0@
                    &&& p.block_offsets@.len() == self.files@.len() + 1
                    &&& forall|k: int|
                        0 <= k < self.files@.len() ==> (#[trigger] p.block_offsets@[k])
                            == (self.files@[k].1.start as usize, self.files@[k].1.end as usize)
                    &&& p.block_offsets@.last() == (self.current_offset, p.split_size)
                },
                Err(()) => true,
            },
            r is Err <==> (some_range_overflows(self.files@) || self.current_offset + footer_len(
                self.files@,
                hotcache@,
            ) > usize::MAX),
    {
        let mut triples: Vec<(String, u64, u64)> = Vec::new();
        let mut files_and_offsets: Vec<(String, usize, usize)> = Vec::new();
        let mut block_offsets: Vec<(usize, usize)> = Vec::new();
        let n = self.files.len();
        let mut i: usize = 0;
        while i < n
            invariant
                i <= n,
                n == self.files@.len(),
                triples@.len() == i,
                files_and_offsets@.len() == i,
                block_offsets@.len() == i,
                forall|k: int|
                    0 <= k < i ==> (#[trigger] triples@[k]).0@
                        == self.files@[k].0@ && triples@[k].1 == self.files@[k].1.start
                        && triples@[k].2 == self.files@[k].1.end,
                forall|k: int|
                    0 <= k < i ==> (#[trigger] self.files@[k]).1.start <= usize::MAX
                        && self.files@[k].1.end <= usize::MAX,
                triples@.map_values(|t: (String, u64, u64)| (t.0@, t.1, t.2))
                    =~= self.files@.take(i as int).map_values(
                    |t: (String, FileRange)| (t.0@, t.1.start, t.1.end),
                ),
                forall|k: int|
                    0 <= k < i ==> (#[trigger] files_and_offsets@[k]).1
                        == self.files@[k].1.start && files_and_offsets@[k].2
                        == self.files@[k].1.end && files_and_offsets@[k].0@
                        == self.files@[k].0@,
                forall|k: int|
                    0 <= k < i ==> (#[trigger] block_offsets@[k]) == (
                        self.files@[k].1.start as usize,
                        self.files@[k].1.end as usize,
                    ),
            decreases n - i,
        {
            let name = self.files[i].0.clone();
            let fr = self.files[i].1;
            if fr.start > usize::MAX as u64 || fr.end > usize::MAX as u64 {
                proof {
                    assert(some_range_overflows(self.files@)) by {
                        assert((self.files@[i as int]).1.start > usize::MAX
                            || self.files@[i as int].1.end > usize::MAX);
                    }
                }
                return Err(());
            }
            let name2 = self.files[i].0.clone();
            triples.push((name, fr.start, fr.end));
            files_and_offsets.push((name2, fr.start as usize, fr.end as usize));
            block_offsets.push((fr.start as usize, fr.end as usize));
            proof {
                assert(triples@.map_values(|t: (String, u64, u64)| (t.0@, t.1, t.2))
                    =~= self.files@.take(i + 1).map_values(
                    |t: (String, FileRange)| (t.0@, t.1.start, t.1.end),
                ));
            }
            i = i + 1;
        }
        proof {
            assert(self.files@.take(n as int) =~= self.files@);
        }
        let json = files_map_json("files", &triples);
        let mut footer_bytes = json;
        let jlen = footer_bytes.len() as u64;
        push_u64_le(&mut footer_bytes, jlen);
        footer_bytes.extend_from_slice(hotcache);
        push_u64_le(&mut footer_bytes, hotcache.len() as u64);
        proof {
            assert(footer_bytes@.len() == footer_len(self.files@, hotcache@));
        }
        if footer_bytes.len() as u64 > u64::MAX - self.current_offset as u64 {
            return Err(());
        }
        let split_size_big = self.current_offset as u64 + footer_bytes.len() as u64;
        if split_size_big > usize::MAX as u64 {
            return Err(());
        }
        let split_size = self.current_offset + footer_bytes.len();
        block_offsets.push((self.current_offset, split_size));
        proof {
            assert(footer_bytes@ =~= files_json(
                "files"@,
                self.files@.map_values(|t: (String, FileRange)| (t.0@, t.1.start, t.1.end)),
            ) + u64_le(jlen) + hotcache@ + u64_le(hotcache@.len() as u64));
        }
        Ok(SplitPayload {
            split_size,
            files_and_offsets,
            footer_range: (self.current_offset, split_size),
            footer_bytes,
            block_offsets,
        })
    }
}

/// Appends the little-endian bytes of a 64-bit integer.
fn push_u64_le(out: &mut Vec<u8>, x: u64)
    ensures
        final(out)@ == old(out)@ + u64_le(x),
{
    out.push((x & 0xff) as u8);
    out.push(((x >> 8) & 0xff) as u8);
    out.push(((x >> 16) & 0xff) as u8);
    out.push(((x >> 24) & 0xff) as u8);
    out.push(((x >> 32) & 0xff) as u8);
    out.push(((x >> 40) & 0xff) as u8);
    out.push(((x >> 48) & 0xff) as u8);
    out.push(((x >> 56) & 0xff) as u8);
    proof {
        assert(out@ =~= old(out)@ + u64_le(x));
    }
}

/// The total size of the first `i` files.
pub open spec fn sizes_total(files: Seq<(String, u64)>, i: int) -> int
    decreases i,
{
    if i <= 0 {
        0
    } else {
        sizes_total(files, i - 1) + files[i - 1].1
    }
}

/// The ranges a split layout assigns: consecutive, in input order.
pub open spec fn assigned_ranges(files: Seq<(String, u64)>) -> Seq<(Seq<char>, u64, u64)> {
    Seq::new(
        files.len(),
        |k: int| (files[k].0@, sizes_total(files, k) as u64, sizes_total(files, k + 1) as u64),
    )
}

/// Totals only grow as files are added.
proof fn lemma_sizes_total_mono(files: Seq<(String, u64)>, i: int, j: int)
    requires
        0 <= i <= j,
    ensures
        sizes_total(files, i) <= sizes_total(files, j),
    decreases j - i,
{
    if i < j {
        lemma_sizes_total_mono(files, i, j - 1);
    }
}

/// Lays out a split from a list of files with their sizes and the
/// hotcache bytes: each file gets the next consecutive byte range, and
/// the footer closes the split. Fails exactly when the files' bytes, or
/// the files' bytes plus the footer, exceed the platform word.
pub fn get_split_payload_streamer(split_files: &Vec<(String, u64)>, hotcache: &[u8]) -> (r:
    Result<SplitPayload, ()>)
    ensures
        ({
            let n = split_files@.len() as int;
            let total = sizes_total(split_files@, n);
            let json = files_json("files"@, assigned_ranges(split_files@));
            &&& (r is Err <==> (total > usize::MAX || total + json.len() + 16 + hotcache@.len()
                > usize::MAX))
            &&& r matches Ok(p) ==> ({
                &&& p.footer_bytes@ == json + u64_le(json.len() as u64) + hotcache@ + u64_le(
                    hotcache@.len() as u64,
                )
                &&& p.split_size == total + p.footer_bytes@.len()
                &&& p.footer_range == (total as usize, p.split_size)
                &&& p.files_and_offsets@.len() == n
                &&& forall|k: int|
                    0 <= k < n ==> (#[trigger] p.files_and_offsets@[k]).0@
                        == split_files@[k].0@ && p.files_and_offsets@[k].1 == sizes_total(
                        split_files@,
                        k,
                    ) && p.files_and_offsets@[k].2 == sizes_total(split_files@, k + 1)
                &&& p.block_offsets@.len() == n + 1
                &&& forall|k: int|
                    0 <= k < n ==> (#[trigger] p.block_offsets@[k]) == (
                        sizes_total(split_files@, k) as usize,
                        sizes_total(split_files@, k + 1) as usize,
                    )
                &&& p.block_offsets@.last() == (total as usize, p.split_size)
            })
        }),
{
    let mut builder = SplitPayloadBuilder::new();
    let n = split_files.len();
    let mut i: usize = 0;
    while i < n
        invariant
            i <= n,
            n == split_files@.len(),
            builder.files@.len() == i,
            builder.current_offset == sizes_total(split_files@, i as int),
            forall|k: int|
                0 <= k < i ==> (#[trigger] builder.files@[k]).0@ == split_files@[k].0@
                    && builder.files@[k].1 == (FileRange {
                    start: sizes_total(split_files@, k) as u64,
                    end: sizes_total(split_files@, k + 1) as u64,
                }),
        decreases n - i,
    {
        let ghost pre = builder.files@;
        match builder.add_file(split_files[i].0.as_str(), split_files[i].1) {
            Ok(()) => {},
            Err(()) => {
                proof {
                    lemma_sizes_total_mono(split_files@, i + 1, n as int);
                }
                return Err(());
            },
        }
        proof {
            assert(forall|k: int| 0 <= k < i ==> #[trigger] builder.files@[k] == pre[k]);
        }
        i = i + 1;
    }
    let ghost total = sizes_total(split_files@, n as int);
    proof {
        assert(builder.files@.map_values(|t: (String, FileRange)| (t.0@, t.1.start, t.1.end))
            =~= assigned_ranges(split_files@));
        assert(!some_range_overflows(builder.files@)) by {
            if some_range_overflows(builder.files@) {
                let k = choose|k: int|
                    0 <= k < builder.files@.len() && ((#[trigger] builder.files@[k]).1.start
                        > usize::MAX || builder.files@[k].1.end > usize::MAX);
                lemma_sizes_total_mono(split_files@, k, n as int);
                lemma_sizes_total_mono(split_files@, k + 1, n as int);
                assert(sizes_total(split_files@, k) >= 0 && sizes_total(split_files@, k + 1)
                    >= 0) by {
                    lemma_sizes_total_mono(split_files@, 0, k);
                    lemma_sizes_total_mono(split_files@, 0, k + 1);
                }
            }
        }
        assert(footer_len(builder.files@, hotcache@) == files_json(
            "files"@,
            assigned_ranges(split_files@),
        ).len() + 16 + hotcache@.len());
        // Every assigned boundary lies between zero and the total.
        assert forall|k: int| 0 <= k <= n implies 0 <= #[trigger] sizes_total(split_files@, k)
            <= usize::MAX by {
            lemma_sizes_total_mono(split_files@, 0, k);
            lemma_sizes_total_mono(split_files@, k, n as int);
        }
    }
    builder.finalize(hotcache)
}

} // verus!

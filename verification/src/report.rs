//! Per-file records and the aggregated report.
//!
//! A record carries a file's path, its parent directory and final name,
//! and the optional modification time and parsed content.  Aggregation
//! folds an unordered collection of records into a files index keyed by
//! the hex digest of the path, and a directory index linking every
//! ancestor directory to its children (the full-ancestor-chain
//! variant); both folds are last-write-wins and order-independent per
//! key.

use vstd::prelude::*;

use crate::content::content_from_string;
use crate::content::parse_content;
use crate::hash::xxh3_hash;
use crate::hash::xxh3_of;
use crate::hexkey::hex_key;
use crate::hexkey::hex_of;
use crate::hexkey::lemma_hex_of_injective;
use crate::kvmap::KvMap;
use crate::kvmap::NameList;
use crate::paths::chain_insert;
use crate::paths::chain_pairs;
use crate::paths::lemma_chain_insert_count;
use crate::paths::lemma_chain_insert_keeps_nonempty;
use crate::paths::list_count;
use crate::paths::lemma_chain_insert_links;
use crate::paths::lemma_chain_insert_monotone;
use crate::paths::name_of;
use crate::paths::parent_of;
use crate::paths::path_name;
use crate::paths::path_parent;
use crate::paths::split_dir_and_file;
use crate::paths::split_path;

verus! {

/// Run metadata: elapsed time and completion timestamp.
pub struct Meta {
    pub duration_ms: u64,
    pub timestamp: u64,
}

/// One discovered file's record.
pub struct FileInfo {
    pub dir: String,
    pub path: String,
    pub slug: String,
    pub modified: Option<u64>,
    pub content: Option<KvMap<String>>,
}

/// The abstract value of a record.
pub struct FileInfoView {
    pub dir: Seq<char>,
    pub path: Seq<char>,
    pub slug: Seq<char>,
    pub modified: Option<u64>,
    pub content: Option<Map<Seq<char>, Seq<char>>>,
}

impl View for FileInfo {
    type V = FileInfoView;

    open spec fn view(&self) -> FileInfoView {
        FileInfoView {
            dir: self.dir@,
            path: self.path@,
            slug: self.slug@,
            modified: self.modified,
            content: match self.content {
                Some(m) => Some(m@),
                None => None,
            },
        }
    }
}

impl FileInfo {
    /// The stored content map, when present, has distinct keys.
    pub open spec fn wf(&self) -> bool {
        match self.content {
            Some(m) => m.wf(),
            None => true,
        }
    }
}

/// Assembles one file's record from its path and the outcomes of the
/// optional metadata and content reads.  Each optional field depends
/// only on its own flag and outcome: a failed read leaves its field
/// absent and never disturbs the other.
pub fn process_file(
    path: &str,
    include_modification_date: bool,
    modified_secs: Option<u64>,
    read_content: bool,
    text: Option<&str>,
) -> (r: FileInfo)
    ensures
        r.wf(),
        r@.path == path@,
        r@.modified == (if include_modification_date {
            modified_secs
        } else {
            None::<u64>
        }),
        r@.content == (if read_content {
            match text {
                Some(t) => Some(parse_content(t@)),
                None => None::<Map<Seq<char>, Seq<char>>>,
            }
        } else {
            None::<Map<Seq<char>, Seq<char>>>
        }),
        r@.dir == (match parent_of(path@) {
            Some(d) => d,
            None => "<unknown>"@,
        }),
        r@.slug == (match name_of(path@) {
            Some(nm) => nm,
            None => "<unknown>"@,
        }),
{
    let path_str = String::from_str(path);
    let dir_str = match path_parent(path) {
        Some(d) => String::from_str(d),
        None => String::from_str("<unknown>"),
    };
    let slug = match path_name(path) {
        Some(nm) => nm,
        None => String::from_str("<unknown>"),
    };
    let modified: Option<u64> = if include_modification_date {
        modified_secs
    } else {
        None
    };
    let content: Option<KvMap<String>> = if read_content {
        match text {
            Some(t) => Some(content_from_string(t)),
            None => None,
        }
    } else {
        None
    };
    FileInfo { dir: dir_str, path: path_str, slug, modified, content }
}

/// The key under which a path's record is filed.
pub open spec fn file_key(p: Seq<char>) -> Seq<char> {
    hex_of(xxh3_of(p))
}

/// The files index of a collection of records: each keyed by its
/// path's digest, a later record overwriting an earlier one of the
/// same key.
pub open spec fn files_map_of(rs: Seq<FileInfo>) -> Map<Seq<char>, FileInfoView>
    decreases rs.len(),
{
    if rs.len() == 0 {
        Map::empty()
    } else {
        files_map_of(rs.drop_last()).insert(file_key(rs.last()@.path), rs.last()@)
    }
}

/// The directory index of a collection of records: every record's path
/// linked through its whole ancestor chain.
pub open spec fn dirs_map_of(rs: Seq<FileInfo>) -> Map<Seq<char>, Seq<Seq<char>>>
    decreases rs.len(),
{
    if rs.len() == 0 {
        Map::empty()
    } else {
        chain_insert(dirs_map_of(rs.drop_last()), rs.last()@.path)
    }
}

/// The aggregated report.
pub struct Output {
    pub files: KvMap<FileInfo>,
    pub dirs: KvMap<NameList>,
    pub meta: Meta,
}

/// Folds the collected records into the files and directory indices
/// and attaches the run metadata.
pub fn build_output(files: Vec<FileInfo>, duration_ms: u64, timestamp: u64) -> (out: Output)
    ensures
        out.files.wf(),
        out.dirs.wf(),
        out.files@ == files_map_of(files@),
        out.dirs@ == dirs_map_of(files@),
        out.meta.duration_ms == duration_ms,
        out.meta.timestamp == timestamp,
{
    let ghost all = files@;
    let mut rest = files;
    let mut file_map = KvMap::<FileInfo>::new();
    let mut dirs_map = KvMap::<NameList>::new();
    let ghost mut k: int = 0;
    proof {
        assert(all.take(0) =~= Seq::<FileInfo>::empty());
        assert(rest@ =~= all.skip(0));
    }
    while rest.len() > 0
        invariant
            0 <= k <= all.len(),
            rest@ == all.skip(k),
            file_map.wf(),
            dirs_map.wf(),
            file_map@ == files_map_of(all.take(k)),
            dirs_map@ == dirs_map_of(all.take(k)),
        decreases rest@.len(),
    {
        let file = rest.remove(0);
        proof {
            assert(all.skip(k)[0] == all[k]);
            assert(file == all[k]);
            assert(all.skip(k).remove(0) =~= all.skip(k + 1));
            assert(all.take(k + 1).drop_last() =~= all.take(k));
            assert(all.take(k + 1).last() == all[k]);
        }
        let key = hex_key(xxh3_hash(file.path.as_str()));
        link_ancestors(&mut dirs_map, file.path.as_str());
        file_map.insert(key, file);
        proof {
            k = k + 1;
        }
    }
    proof {
        assert(all.take(k) =~= all);
    }
    Output { files: file_map, dirs: dirs_map, meta: Meta { duration_ms, timestamp } }
}

/// Links one path into the directory index: its name under its parent,
/// the parent under the grandparent, and so on up to the root.
fn link_ancestors(dirs: &mut KvMap<NameList>, path: &str)
    requires
        old(dirs).wf(),
    ensures
        final(dirs).wf(),
        final(dirs)@ == chain_insert(old(dirs)@, path@),
{
    let mut cur = String::from_str(path);
    let ghost m0 = old(dirs)@;
    let ghost p0 = path@;
    proof {
        assert(chain_insert(m0, p0) == chain_insert(dirs@, cur@));
    }
    loop
        invariant
            m0 == old(dirs)@,
            p0 == path@,
            dirs.wf(),
            chain_insert(m0, p0) == chain_insert(dirs@, cur@),
        decreases cur@.len(),
    {
        match split_dir_and_file(cur.as_str()) {
            Some(df) => {
                let d = String::from_str(df.0);
                dirs.push_child(d, df.1);
                proof {
                    crate::paths::lemma_parent_shrinks(cur@);
                }
                cur = String::from_str(df.0);
            },
            None => {
                proof {
                    assert(split_path(cur@) is None);
                    assert(chain_insert(dirs@, cur@) == dirs@);
                }
                return ;
            },
        }
    }
}

/// Every record's key is present in the files index; when no later
/// record collides on the key, the index holds that record itself.
pub proof fn lemma_files_complete(rs: Seq<FileInfo>, i: int)
    requires
        0 <= i < rs.len(),
    ensures
        files_map_of(rs).contains_key(file_key(rs[i]@.path)),
        (forall|j: int| i < j < rs.len() ==> file_key(rs[j]@.path) != file_key(rs[i]@.path))
            ==> files_map_of(rs)[file_key(rs[i]@.path)] == rs[i]@,
    decreases rs.len(),
{
    assert(forall|j: int| 0 <= j < rs.len() - 1 ==> rs.drop_last()[j] == rs[j]);
    if i < rs.len() - 1 {
        lemma_files_complete(rs.drop_last(), i);
    }
}

/// The files index holds exactly the keys of the processed records: no
/// record is dropped and no entry is invented.
pub proof fn lemma_files_exact(rs: Seq<FileInfo>, k: Seq<char>)
    ensures
        files_map_of(rs).contains_key(k) <==> exists|i: int|
            0 <= i < rs.len() && file_key(rs[i]@.path) == k,
    decreases rs.len(),
{
    if rs.len() > 0 {
        lemma_files_exact(rs.drop_last(), k);
        assert(forall|j: int| 0 <= j < rs.len() - 1 ==> rs.drop_last()[j] == rs[j]);
        if files_map_of(rs).contains_key(k) {
            if k == file_key(rs.last()@.path) {
                assert(file_key(rs[rs.len() - 1]@.path) == k);
            }
        }
        if exists|i: int| 0 <= i < rs.len() && file_key(rs[i]@.path) == k {
            let i = choose|i: int| 0 <= i < rs.len() && file_key(rs[i]@.path) == k;
            if i < rs.len() - 1 {
                assert(file_key(rs.drop_last()[i]@.path) == k);
            }
        }
    }
}

/// Distinct digests give distinct file keys: a key collision can only
/// come from a digest collision.
pub proof fn lemma_file_key_injective(p1: Seq<char>, p2: Seq<char>)
    requires
        xxh3_of(p1) != xxh3_of(p2),
    ensures
        file_key(p1) != file_key(p2),
{
    if file_key(p1) == file_key(p2) {
        lemma_hex_of_injective(xxh3_of(p1), xxh3_of(p2));
    }
}

/// Unordered aggregation: any two arrival orders of the same records,
/// with pairwise distinct keys, fold to the same files index.
pub proof fn lemma_files_order_independent(rs1: Seq<FileInfo>, rs2: Seq<FileInfo>)
    requires
        rs1.to_multiset() == rs2.to_multiset(),
        forall|a: int, b: int|
            0 <= a < b < rs1.len() ==> file_key(rs1[a]@.path) != file_key(rs1[b]@.path),
        forall|a: int, b: int|
            0 <= a < b < rs2.len() ==> file_key(rs2[a]@.path) != file_key(rs2[b]@.path),
    ensures
        files_map_of(rs1) == files_map_of(rs2),
{
    rs1.to_multiset_ensures();
    rs2.to_multiset_ensures();
    assert forall|k: Seq<char>| #[trigger] files_map_of(rs1).dom().contains(k) implies files_map_of(
        rs2,
    ).dom().contains(k) && files_map_of(rs1)[k] == files_map_of(rs2)[k] by {
        assert(files_map_of(rs1).contains_key(k));
        lemma_files_exact(rs1, k);
        let i = choose|i: int| 0 <= i < rs1.len() && file_key(rs1[i]@.path) == k;
        assert(rs1.contains(rs1[i]));
        assert(rs1.to_multiset().count(rs1[i]) > 0);
        assert(rs2.contains(rs1[i]));
        let i2 = choose|i2: int| 0 <= i2 < rs2.len() && rs2[i2] == rs1[i];
        assert(file_key(rs2[i2]@.path) == k);
        lemma_files_complete(rs1, i);
        lemma_files_complete(rs2, i2);
    }
    assert forall|k: Seq<char>| #[trigger] files_map_of(rs2).dom().contains(k) implies files_map_of(
        rs1,
    ).dom().contains(k) by {
        assert(files_map_of(rs2).contains_key(k));
        lemma_files_exact(rs2, k);
        let i = choose|i: int| 0 <= i < rs2.len() && file_key(rs2[i]@.path) == k;
        assert(rs2.contains(rs2[i]));
        assert(rs2.to_multiset().count(rs2[i]) > 0);
        assert(rs1.contains(rs2[i]));
        let i1 = choose|i1: int| 0 <= i1 < rs1.len() && rs1[i1] == rs2[i];
        assert(file_key(rs1[i1]@.path) == k);
        lemma_files_exact(rs1, k);
    }
    assert(files_map_of(rs1).dom() =~= files_map_of(rs2).dom());
    assert(files_map_of(rs1) =~= files_map_of(rs2));
}

/// The links that the records of `rs` contribute to the child list of
/// `d`, counted for one name `n`.
pub open spec fn dirs_count(rs: Seq<FileInfo>, d: Seq<char>, n: Seq<char>) -> nat
    decreases rs.len(),
{
    if rs.len() == 0 {
        0
    } else {
        dirs_count(rs.drop_last(), d, n) + chain_pairs(rs.last()@.path).to_multiset().count((d, n))
    }
}

/// The directory index holds exactly the records' contributed links.
proof fn lemma_dirs_map_count(rs: Seq<FileInfo>, d: Seq<char>, n: Seq<char>)
    ensures
        list_count(dirs_map_of(rs), d, n) == dirs_count(rs, d, n),
    decreases rs.len(),
{
    if rs.len() > 0 {
        lemma_dirs_map_count(rs.drop_last(), d, n);
        lemma_chain_insert_count(dirs_map_of(rs.drop_last()), rs.last()@.path, d, n);
    }
}

/// Removing one record removes exactly its contribution.
proof fn lemma_dirs_count_remove(rs: Seq<FileInfo>, i: int, d: Seq<char>, n: Seq<char>)
    requires
        0 <= i < rs.len(),
    ensures
        dirs_count(rs, d, n) == dirs_count(rs.remove(i), d, n) + chain_pairs(
            rs[i]@.path,
        ).to_multiset().count((d, n)),
    decreases rs.len(),
{
    if i == rs.len() - 1 {
        assert(rs.remove(i) =~= rs.drop_last());
    } else {
        assert(rs.remove(i).drop_last() =~= rs.drop_last().remove(i));
        assert(rs.remove(i).last() == rs.last());
        lemma_dirs_count_remove(rs.drop_last(), i, d, n);
        assert(rs.drop_last()[i] == rs[i]);
    }
}

/// The records' contributed links do not depend on their order.
proof fn lemma_dirs_count_perm(rs1: Seq<FileInfo>, rs2: Seq<FileInfo>, d: Seq<char>, n: Seq<char>)
    requires
        rs1.to_multiset() == rs2.to_multiset(),
    ensures
        dirs_count(rs1, d, n) == dirs_count(rs2, d, n),
    decreases rs1.len(),
{
    rs1.to_multiset_ensures();
    rs2.to_multiset_ensures();
    if rs1.len() == 0 {
        assert(rs2.to_multiset().len() == 0);
        assert(rs2.len() == 0);
    } else {
        let last = rs1.last();
        assert(rs1[rs1.len() - 1] == last);
        assert(rs1.contains(last));
        assert(rs1.to_multiset().count(last) > 0);
        assert(rs2.contains(last));
        let i2 = choose|i2: int| 0 <= i2 < rs2.len() && rs2[i2] == last;
        lemma_dirs_count_remove(rs2, i2, d, n);
        assert(rs1.drop_last() =~= rs1.remove(rs1.len() - 1));
        assert(rs1.remove(rs1.len() - 1).to_multiset() =~= rs1.to_multiset().remove(last));
        assert(rs2.remove(i2).to_multiset() =~= rs2.to_multiset().remove(last));
        lemma_dirs_count_perm(rs1.drop_last(), rs2.remove(i2), d, n);
    }
}

/// Every child list in the directory index is non-empty.
proof fn lemma_dirs_map_nonempty(rs: Seq<FileInfo>)
    ensures
        forall|d: Seq<char>| #[trigger]
            dirs_map_of(rs).contains_key(d) ==> dirs_map_of(rs)[d].len() > 0,
    decreases rs.len(),
{
    if rs.len() > 0 {
        lemma_dirs_map_nonempty(rs.drop_last());
        lemma_chain_insert_keeps_nonempty(dirs_map_of(rs.drop_last()), rs.last()@.path);
    }
}

/// Unordered aggregation, directory half: any two arrival orders of
/// the same records give the same directory keys, each holding the
/// same children counted as a multiset (a list's internal order
/// follows arrival order and carries no meaning).
pub proof fn lemma_dirs_order_independent(rs1: Seq<FileInfo>, rs2: Seq<FileInfo>)
    requires
        rs1.to_multiset() == rs2.to_multiset(),
    ensures
        dirs_map_of(rs1).dom() == dirs_map_of(rs2).dom(),
        forall|d: Seq<char>| #[trigger] dirs_map_of(rs1).contains_key(d)
            ==> dirs_map_of(rs1)[d].to_multiset() == dirs_map_of(rs2)[d].to_multiset(),
{
    let m1 = dirs_map_of(rs1);
    let m2 = dirs_map_of(rs2);
    lemma_dirs_map_nonempty(rs1);
    lemma_dirs_map_nonempty(rs2);
    assert forall|d: Seq<char>| #[trigger] m1.dom().contains(d) implies m2.dom().contains(d) by {
        let list = m1[d];
        let n = list[0];
        list.to_multiset_ensures();
        assert(list.contains(n));
        assert(list_count(m1, d, n) > 0);
        lemma_dirs_map_count(rs1, d, n);
        lemma_dirs_count_perm(rs1, rs2, d, n);
        lemma_dirs_map_count(rs2, d, n);
        assert(list_count(m2, d, n) > 0);
    }
    assert forall|d: Seq<char>| #[trigger] m2.dom().contains(d) implies m1.dom().contains(d) by {
        let list = m2[d];
        let n = list[0];
        list.to_multiset_ensures();
        assert(list.contains(n));
        assert(list_count(m2, d, n) > 0);
        lemma_dirs_map_count(rs2, d, n);
        lemma_dirs_count_perm(rs1, rs2, d, n);
        lemma_dirs_map_count(rs1, d, n);
        assert(list_count(m1, d, n) > 0);
    }
    assert(m1.dom() =~= m2.dom());
    assert forall|d: Seq<char>| #[trigger] m1.contains_key(d) implies m1[d].to_multiset()
        == m2[d].to_multiset() by {
        assert(m2.contains_key(d));
        assert forall|n: Seq<char>| #[trigger] m1[d].to_multiset().count(n)
            == m2[d].to_multiset().count(n) by {
            lemma_dirs_map_count(rs1, d, n);
            lemma_dirs_count_perm(rs1, rs2, d, n);
            lemma_dirs_map_count(rs2, d, n);
        }
        assert(m1[d].to_multiset() =~= m2[d].to_multiset());
    }
}

/// Directory linkage: each record's name is listed under its parent
/// directory, and the parent under the grandparent.
pub proof fn lemma_directory_linkage(rs: Seq<FileInfo>, i: int)
    requires
        0 <= i < rs.len(),
    ensures
        split_path(rs[i]@.path) matches Some(kv) ==> dirs_map_of(rs).contains_key(kv.0)
            && dirs_map_of(rs)[kv.0].contains(kv.1) && (split_path(kv.0) matches Some(kv2)
            ==> dirs_map_of(rs).contains_key(kv2.0) && dirs_map_of(rs)[kv2.0].contains(kv2.1)),
    decreases rs.len(),
{
    assert(forall|j: int| 0 <= j < rs.len() - 1 ==> rs.drop_last()[j] == rs[j]);
    let p = rs[i]@.path;
    if i == rs.len() - 1 {
        let prev = dirs_map_of(rs.drop_last());
        lemma_chain_insert_links(prev, p);
        if let Some(kv) = split_path(p) {
            if let Some(kv2) = split_path(kv.0) {
                let m2 = crate::paths::add_child(prev, kv.0, kv.1);
                lemma_chain_insert_links(m2, kv.0);
            }
        }
    } else {
        lemma_directory_linkage(rs.drop_last(), i);
        if let Some(kv) = split_path(p) {
            lemma_chain_insert_monotone(dirs_map_of(rs.drop_last()), rs.last()@.path, kv.0, kv.1);
            if let Some(kv2) = split_path(kv.0) {
                lemma_chain_insert_monotone(
                    dirs_map_of(rs.drop_last()),
                    rs.last()@.path,
                    kv2.0,
                    kv2.1,
                );
            }
        }
    }
}

} // verus!

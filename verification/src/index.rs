//! The package index loader: parse the decompressed index and build the
//! directory tree for session attach.
//!
//! Each paragraph that carries both a `Build-Ids` and a `Filename` field
//! contributes one leaf per well-formed build-id; paragraphs missing
//! either field are skipped.  The leaves are grouped into first-level
//! directories named by the first two characters of their build-id; the
//! directories are unordered, and within one directory the leaves keep
//! their index order.

use vstd::prelude::*;

use crate::FsError;
use crate::deb822;
use crate::debugfs::{DebugHeader, DirV, Directory, LeafV, Root, RootV, dir_wf, leaf_wf, root_wf};
use crate::text::{all_lower_hex, append_bytes, check_lower_hex, subrange_vec};

verus! {

/// The field naming the space-separated build-ids: `Build-Ids`.
pub open spec fn build_ids_key() -> Seq<u8> {
    seq![0x42u8, 0x75u8, 0x69u8, 0x6cu8, 0x64u8, 0x2du8, 0x49u8, 0x64u8, 0x73u8]
}

/// The field naming the pool path of the `.deb`: `Filename`.
pub open spec fn filename_key() -> Seq<u8> {
    seq![0x46u8, 0x69u8, 0x6cu8, 0x65u8, 0x6eu8, 0x61u8, 0x6du8, 0x65u8]
}

/// The leaf name suffix `.debug`.
pub open spec fn dot_debug() -> Seq<u8> {
    seq![0x2eu8, 0x64u8, 0x65u8, 0x62u8, 0x75u8, 0x67u8]
}

fn make_build_ids_key() -> (r: Vec<u8>)
    ensures
        r@ == build_ids_key(),
{
    let mut r: Vec<u8> = Vec::new();
    r.push(0x42);
    r.push(0x75);
    r.push(0x69);
    r.push(0x6c);
    r.push(0x64);
    r.push(0x2d);
    r.push(0x49);
    r.push(0x64);
    r.push(0x73);
    proof {
        assert(r@ =~= build_ids_key());
    }
    r
}

fn make_filename_key() -> (r: Vec<u8>)
    ensures
        r@ == filename_key(),
{
    let mut r: Vec<u8> = Vec::new();
    r.push(0x46);
    r.push(0x69);
    r.push(0x6c);
    r.push(0x65);
    r.push(0x6e);
    r.push(0x61);
    r.push(0x6d);
    r.push(0x65);
    proof {
        assert(r@ =~= filename_key());
    }
    r
}

/// Index of the first space at or after `from`, or `s.len()`.
pub open spec fn find_sp(s: Seq<u8>, from: int) -> int
    decreases s.len() - from,
{
    if from < 0 || from >= s.len() {
        s.len() as int
    } else if s[from] == 0x20 {
        from
    } else {
        find_sp(s, from + 1)
    }
}

proof fn lemma_find_sp_bounds(s: Seq<u8>, from: int)
    requires
        0 <= from <= s.len(),
    ensures
        from <= find_sp(s, from) <= s.len(),
    decreases s.len() - from,
{
    if from < s.len() && s[from] != 0x20 {
        lemma_find_sp_bounds(s, from + 1);
    }
}

proof fn lemma_find_sp_at(s: Seq<u8>, from: int, i: int)
    requires
        0 <= from <= i <= s.len(),
        forall|j: int| from <= j < i ==> s[j] != 0x20,
        i < s.len() ==> s[i] == 0x20,
    ensures
        find_sp(s, from) == if i < s.len() { i } else { s.len() as int },
    decreases i - from,
{
    if from < i {
        lemma_find_sp_at(s, from + 1, i);
    }
}

/// Split on single spaces, as the index's `Build-Ids` value is split:
/// consecutive spaces yield empty fragments.
pub open spec fn split_sp(v: Seq<u8>) -> Seq<Seq<u8>>
    decreases v.len(),
    via split_sp_dec
{
    let i = find_sp(v, 0);
    if i == v.len() {
        seq![v]
    } else {
        seq![v.subrange(0, i)] + split_sp(v.subrange(i + 1, v.len() as int))
    }
}

#[via_fn]
proof fn split_sp_dec(v: Seq<u8>) {
    lemma_find_sp_bounds(v, 0);
}

/// A well-formed build-id token: 40 lowercase hex characters.
pub open spec fn valid_bid(t: Seq<u8>) -> bool {
    t.len() == 40 && all_lower_hex(t)
}

/// The leaf a build-id token denotes, for a paragraph naming `filename`
/// under the archive rooted at `root`.
pub open spec fn leaf_of(t: Seq<u8>, filename: Seq<u8>, root: Seq<u8>) -> LeafV {
    LeafV {
        name: t.subrange(2, 40) + dot_debug(),
        build_id: t,
        pool: root + seq![0x2fu8] + filename,
        fspath: t.subrange(0, 2) + seq![0x2fu8] + t.subrange(2, 40) + dot_debug(),
    }
}

/// The leaves a token list contributes: one per well-formed token.
pub open spec fn tokens_leaves(toks: Seq<Seq<u8>>, filename: Seq<u8>, root: Seq<u8>) -> Seq<LeafV>
    decreases toks.len(),
{
    if toks.len() == 0 {
        Seq::empty()
    } else {
        let rest = tokens_leaves(toks.drop_first(), filename, root);
        if valid_bid(toks.first()) {
            seq![leaf_of(toks.first(), filename, root)] + rest
        } else {
            rest
        }
    }
}

/// The leaves one paragraph contributes: none unless it carries both
/// required fields.
pub open spec fn para_leaves(m: Map<Seq<u8>, Seq<u8>>, root: Seq<u8>) -> Seq<LeafV> {
    if m.dom().contains(build_ids_key()) && m.dom().contains(filename_key()) {
        tokens_leaves(split_sp(m[build_ids_key()]), m[filename_key()], root)
    } else {
        Seq::empty()
    }
}

/// The sequence of paragraphs of the whole index, or `None` when one is
/// malformed.
pub open spec fn paras_from(s: Seq<u8>, pos: int) -> Option<Seq<Map<Seq<u8>, Seq<u8>>>>
    decreases s.len() - pos,
    via paras_from_dec
{
    match deb822::parse_from(s, pos, Map::empty(), false) {
        deb822::Outcome::End => Some(Seq::empty()),
        deb822::Outcome::Malformed => None,
        deb822::Outcome::Para(m, np) => match paras_from(s, np) {
            None => None,
            Some(rest) => Some(seq![m] + rest),
        },
    }
}

#[via_fn]
proof fn paras_from_dec(s: Seq<u8>, pos: int) {
    if 0 <= pos <= s.len() {
        deb822::lemma_parse_advances(s, pos);
    }
}

/// The paragraphs of the whole index.
pub open spec fn paras(s: Seq<u8>) -> Option<Seq<Map<Seq<u8>, Seq<u8>>>> {
    paras_from(s, 0)
}

/// All leaves of the index, in paragraph order.
pub open spec fn flat_leaves(ms: Seq<Map<Seq<u8>, Seq<u8>>>, root: Seq<u8>) -> Seq<LeafV>
    decreases ms.len(),
{
    if ms.len() == 0 {
        Seq::empty()
    } else {
        para_leaves(ms.first(), root) + flat_leaves(ms.drop_first(), root)
    }
}

/// A leaf's first-level directory name.
pub open spec fn leaf_prefix(l: LeafV) -> Seq<u8> {
    l.build_id.subrange(0, 2)
}

/// The tree `r` groups exactly the leaves of `flat`: directory names are
/// distinct, each directory holds, in order, exactly the leaves whose
/// build-id starts with its name, and every leaf's prefix has a
/// directory.
/// The leaves of `flat` whose first-level directory is `name`, in order.
pub open spec fn prefix_filter(flat: Seq<LeafV>, name: Seq<u8>) -> Seq<LeafV> {
    flat.filter(|l: LeafV| leaf_prefix(l) == name)
}

/// Whether some directory view of `ds` is named `p`.
pub open spec fn has_dirv(ds: Seq<DirV>, p: Seq<u8>) -> bool {
    exists|k: int| 0 <= k < ds.len() && (#[trigger] ds[k]).name == p
}

/// Whether some leaf of `flat` has the first-level directory `name`.
pub open spec fn prefix_in(flat: Seq<LeafV>, name: Seq<u8>) -> bool {
    exists|i: int| 0 <= i < flat.len() && leaf_prefix(#[trigger] flat[i]) == name
}

pub open spec fn grouped(flat: Seq<LeafV>, r: RootV) -> bool {
    &&& forall|k1: int, k2: int| 0 <= k1 < k2 < r.entries.len() ==> (#[trigger] r.entries[k1]).name
        != (#[trigger] r.entries[k2]).name
    &&& forall|k: int| 0 <= k < r.entries.len() ==> (#[trigger] r.entries[k]).entries
        == prefix_filter(flat, r.entries[k].name)
    &&& forall|i: int| 0 <= i < flat.len() ==> has_dirv(r.entries, leaf_prefix(#[trigger] flat[i]))
    &&& forall|k: int| 0 <= k < r.entries.len() ==> prefix_in(flat, (#[trigger] r.entries[k]).name)
}

proof fn lemma_map_push(s: Seq<DebugHeader>, x: DebugHeader)
    ensures
        s.push(x).map_values(|l: DebugHeader| l@) == s.map_values(|l: DebugHeader| l@).push(x@),
{
    let lhs = s.push(x).map_values(|l: DebugHeader| l@);
    let rhs = s.map_values(|l: DebugHeader| l@).push(x@);
    assert forall|j: int| 0 <= j < lhs.len() implies lhs[j] == rhs[j] by {
        if j < s.len() {
            assert(lhs[j] == s.push(x)[j]@);
            assert(s.push(x)[j] == s[j]);
        } else {
            assert(lhs[j] == s.push(x)[j]@);
            assert(s.push(x)[j] == x);
        }
    }
    assert(lhs =~= rhs);
}

proof fn lemma_prefix_filter_push(s: Seq<LeafV>, name: Seq<u8>, x: LeafV)
    ensures
        prefix_filter(s.push(x), name) == if leaf_prefix(x) == name {
            prefix_filter(s, name).push(x)
        } else {
            prefix_filter(s, name)
        },
{
    reveal(Seq::filter);
    assert(s.push(x).drop_last() =~= s);
    assert(s.push(x).last() == x);
}

proof fn lemma_prefix_filter_none(s: Seq<LeafV>, name: Seq<u8>)
    requires
        forall|i: int| 0 <= i < s.len() ==> leaf_prefix(#[trigger] s[i]) != name,
    ensures
        prefix_filter(s, name) == Seq::<LeafV>::empty(),
    decreases s.len(),
{
    reveal(Seq::filter);
    if s.len() > 0 {
        assert(forall|i: int| 0 <= i < s.len() - 1 ==> s.drop_last()[i] == s[i]);
        lemma_prefix_filter_none(s.drop_last(), name);
        assert(leaf_prefix(s.last()) != name);
    }
}

proof fn lemma_prefix_in_push(s: Seq<LeafV>, name: Seq<u8>, x: LeafV)
    requires
        prefix_in(s, name) || leaf_prefix(x) == name,
    ensures
        prefix_in(s.push(x), name),
{
    if prefix_in(s, name) {
        let i = choose|i: int| 0 <= i < s.len() && leaf_prefix(#[trigger] s[i]) == name;
        assert(s.push(x)[i] == s[i]);
        assert(leaf_prefix(s.push(x)[i]) == name);
    } else {
        assert(s.push(x)[s.len() as int] == x);
        assert(leaf_prefix(s.push(x)[s.len() as int]) == name);
    }
}

/// Build one leaf from a validated token `bids[lo..hi]`.
fn build_leaf(bids: &Vec<u8>, lo: usize, hi: usize, filename: &Vec<u8>, root: &Vec<u8>) -> (r:
    DebugHeader)
    requires
        lo <= hi <= bids@.len(),
        hi - lo == 40,
    ensures
        r@ == leaf_of(bids@.subrange(lo as int, hi as int), filename@, root@),
{
    let ghost t = bids@.subrange(lo as int, hi as int);
    let build_id = subrange_vec(bids, lo, hi);
    let mut name = subrange_vec(bids, lo + 2, hi);
    proof {
        assert(bids@.subrange(lo as int + 2, hi as int) =~= t.subrange(2, 40));
    }
    name.push(0x2e);
    name.push(0x64);
    name.push(0x65);
    name.push(0x62);
    name.push(0x75);
    name.push(0x67);
    proof {
        assert(name@ =~= t.subrange(2, 40) + dot_debug());
    }
    let mut fspath = subrange_vec(bids, lo, lo + 2);
    proof {
        assert(bids@.subrange(lo as int, lo as int + 2) =~= t.subrange(0, 2));
    }
    fspath.push(0x2f);
    append_bytes(&mut fspath, &name);
    proof {
        assert(fspath@ =~= t.subrange(0, 2) + seq![0x2fu8] + t.subrange(2, 40) + dot_debug());
    }
    let mut pool = subrange_vec(root, 0, root.len());
    proof {
        assert(root@.subrange(0, root@.len() as int) =~= root@);
    }
    pool.push(0x2f);
    append_bytes(&mut pool, filename);
    proof {
        assert(pool@ =~= root@ + seq![0x2fu8] + filename@);
    }
    DebugHeader { name, build_id, pool, fspath }
}

/// The collection loop's tie between position, collected leaves, and the
/// index's paragraphs.
pub open spec fn collect_inv(s: Seq<u8>, pos: int, flat: Seq<LeafV>, root: Seq<u8>) -> bool {
    match paras_from(s, pos) {
        None => paras(s) is None,
        Some(rest) => match paras(s) {
            Some(all) => flat_leaves(all, root) == flat + flat_leaves(rest, root),
            None => false,
        },
    }
}

/// Collect, in index order, the leaves of every paragraph of the
/// decompressed index.  Fails exactly when a paragraph is malformed.
pub fn collect_leaves(index: &Vec<u8>, root: &Vec<u8>) -> (r: Result<Vec<DebugHeader>, FsError>)
    ensures
        match r {
            Ok(ls) => paras(index@) matches Some(ms) && ls@.map_values(|l: DebugHeader| l@)
                == flat_leaves(ms, root@) && (forall|i: int| 0 <= i < ls@.len() ==> leaf_wf(
                #[trigger] ls@[i]@,
            )),
            Err(e) => e == FsError::Remoteio && paras(index@) is None,
        },
{
    let mut leaves: Vec<DebugHeader> = Vec::new();
    let mut pos: usize = 0;
    proof {
        match paras(index@) {
            Some(all) => {
                assert(Seq::<LeafV>::empty() + flat_leaves(all, root@) =~= flat_leaves(
                    all,
                    root@,
                ));
                assert(leaves@.map_values(|l: DebugHeader| l@) =~= Seq::<LeafV>::empty());
            },
            None => {},
        }
    }
    loop
        invariant
            0 <= pos <= index@.len(),
            collect_inv(index@, pos as int, leaves@.map_values(|l: DebugHeader| l@), root@),
            forall|i: int| 0 <= i < leaves@.len() ==> leaf_wf(#[trigger] leaves@[i]@),
        decreases index@.len() - pos,
    {
        let ghost pre_flat = leaves@.map_values(|l: DebugHeader| l@);
        proof {
            deb822::lemma_parse_advances(index@, pos as int);
        }
        let (pg, np) = match deb822::next(index, pos) {
            Ok(Some(v)) => v,
            Ok(None) => {
                proof {
                    match paras(index@) {
                        Some(all) => {
                            assert(flat_leaves(Seq::empty(), root@) == Seq::<LeafV>::empty());
                            assert(pre_flat + Seq::<LeafV>::empty() =~= pre_flat);
                        },
                        None => {},
                    }
                }
                return Ok(leaves);
            },
            Err(_) => {
                return Err(FsError::Remoteio);
            },
        };
        let ghost m = pg@;
        let bkey = make_build_ids_key();
        let fkey = make_filename_key();
        let bids_opt = pg.get(&bkey);
        let fname_opt = pg.get(&fkey);
        match (bids_opt, fname_opt) {
            (Some(bids), Some(filename)) => {
                let ghost toks = split_sp(bids@);
                let ghost pleaves = tokens_leaves(toks, filename@, root@);
                let mut emitted: Ghost<Seq<LeafV>> = Ghost(Seq::empty());
                let mut t0: usize = 0;
                let mut done = false;
                proof {
                    assert(bids@.subrange(0, bids@.len() as int) =~= bids@);
                    assert(Seq::<LeafV>::empty() + pleaves =~= pleaves);
                }
                while !done
                    invariant
                        0 <= t0 <= bids@.len(),
                        toks == split_sp(bids@),
                        pleaves == tokens_leaves(toks, filename@, root@),
                        emitted@ + (if done {
                            Seq::<LeafV>::empty()
                        } else {
                            tokens_leaves(
                                split_sp(bids@.subrange(t0 as int, bids@.len() as int)),
                                filename@,
                                root@,
                            )
                        }) == pleaves,
                        leaves@.map_values(|l: DebugHeader| l@) == pre_flat + emitted@,
                        forall|i: int| 0 <= i < leaves@.len() ==> leaf_wf(#[trigger] leaves@[i]@),
                    decreases bids@.len() - t0 + (if done { 0int } else { 1int }),
                {
                    let ghost seg = bids@.subrange(t0 as int, bids@.len() as int);
                    let ghost segtoks = split_sp(seg);
                    let mut te: usize = t0;
                    while te < bids.len() && bids[te] != 0x20
                        invariant
                            t0 <= te <= bids@.len(),
                            forall|j: int| t0 <= j < te ==> bids@[j] != 0x20,
                        decreases bids@.len() - te,
                    {
                        te = te + 1;
                    }
                    proof {
                        assert(forall|j: int| 0 <= j < te - t0 ==> seg[j] != 0x20);
                        assert(te < bids@.len() ==> seg[te - t0] == 0x20);
                        lemma_find_sp_at(seg, 0, te - t0);
                        assert(seg.subrange(0, te - t0) =~= bids@.subrange(
                            t0 as int,
                            te as int,
                        ));
                    }
                    let ghost tk = bids@.subrange(t0 as int, te as int);
                    let valid = te - t0 == 40 && check_lower_hex(bids, t0, te);
                    proof {
                        assert(valid == valid_bid(tk));
                        // one unfolding of the token walk over this segment
                        if te < bids@.len() {
                            assert(seg.subrange(te - t0 + 1, seg.len() as int) =~= bids@.subrange(
                                te as int + 1,
                                bids@.len() as int,
                            ));
                            let rest = split_sp(bids@.subrange(te as int + 1, bids@.len() as int));
                            assert(segtoks == seq![tk] + rest);
                            assert(segtoks.first() == tk);
                            assert(segtoks.drop_first() =~= rest);
                        } else {
                            assert(seg =~= tk);
                            assert(segtoks == seq![tk]);
                            assert(segtoks.first() == tk);
                            assert(segtoks.drop_first() =~= Seq::<Seq<u8>>::empty());
                        }
                    }
                    let ghost pre_emitted = emitted@;
                    if valid {
                        let leaf = build_leaf(bids, t0, te, filename, root);
                        proof {
                            let lv = leaf_of(tk, filename@, root@);
                            lemma_map_push(leaves@, leaf);
                            assert(leaf@ == lv);
                            assert((pre_flat + pre_emitted).push(lv) =~= pre_flat
                                + pre_emitted.push(lv));
                            assert(leaf_wf(lv)) by {
                                assert(lv.build_id == tk);
                            }
                        }
                        leaves.push(leaf);
                        emitted = Ghost(emitted@.push(leaf_of(tk, filename@, root@)));
                    }
                    proof {
                        let lv = leaf_of(tk, filename@, root@);
                        let restl = tokens_leaves(segtoks.drop_first(), filename@, root@);
                        if valid_bid(tk) {
                            assert(tokens_leaves(segtoks, filename@, root@) == seq![lv] + restl);
                            assert(pre_emitted + (seq![lv] + restl) =~= pre_emitted.push(lv)
                                + restl);
                            assert(emitted@ == pre_emitted.push(lv));
                        } else {
                            assert(tokens_leaves(segtoks, filename@, root@) == restl);
                            assert(emitted@ == pre_emitted);
                        }
                        assert(emitted@ + restl == pleaves);
                    }
                    if te < bids.len() {
                        t0 = te + 1;
                    } else {
                        proof {
                            assert(tokens_leaves(Seq::<Seq<u8>>::empty(), filename@, root@)
                                == Seq::<LeafV>::empty());
                            assert(emitted@ + Seq::<LeafV>::empty() =~= emitted@);
                        }
                        t0 = te;
                        done = true;
                    }
                }
                proof {
                    assert(m.dom().contains(build_ids_key()));
                    assert(m[build_ids_key()] == bids@);
                    assert(m.dom().contains(filename_key()));
                    assert(m[filename_key()] == filename@);
                    assert(para_leaves(m, root@) == emitted@);
                    step_paragraph(index@, pos as int, np as int, m, root@, pre_flat, emitted@);
                }
            },
            _ => {
                proof {
                    assert(para_leaves(m, root@) == Seq::<LeafV>::empty());
                    step_paragraph(
                        index@,
                        pos as int,
                        np as int,
                        m,
                        root@,
                        pre_flat,
                        Seq::empty(),
                    );
                    assert(pre_flat + Seq::<LeafV>::empty() =~= pre_flat);
                }
            },
        }
        pos = np;
    }
}

proof fn step_paragraph(
    s: Seq<u8>,
    pos: int,
    np: int,
    m: Map<Seq<u8>, Seq<u8>>,
    root: Seq<u8>,
    flat: Seq<LeafV>,
    emitted: Seq<LeafV>,
)
    requires
        0 <= pos <= s.len(),
        deb822::parse_from(s, pos, Map::empty(), false) == deb822::Outcome::Para(m, np),
        emitted == para_leaves(m, root),
        collect_inv(s, pos, flat, root),
    ensures
        collect_inv(s, np, flat + emitted, root),
{
    match paras_from(s, np) {
        None => {
            assert(paras_from(s, pos) is None);
        },
        Some(rest) => {
            assert(paras_from(s, pos) == Some(seq![m] + rest));
            let withm = seq![m] + rest;
            assert(withm.first() == m);
            assert(withm.drop_first() =~= rest);
            assert(flat_leaves(withm, root) == emitted + flat_leaves(rest, root));
            match paras(s) {
                Some(all) => {
                    assert(flat_leaves(all, root) == flat + (emitted + flat_leaves(rest, root)));
                    assert(flat + (emitted + flat_leaves(rest, root)) =~= (flat + emitted)
                        + flat_leaves(rest, root));
                },
                None => {},
            }
        },
    }
}

/// The index of the directory named `name`, if one exists.
fn find_dir_idx(dirs: &Vec<Directory>, name: &Vec<u8>) -> (r: Option<usize>)
    ensures
        match r {
            Some(k) => k < dirs@.len() && dirs@[k as int]@.name == name@,
            None => forall|k: int| 0 <= k < dirs@.len() ==> (#[trigger] dirs@[k]@).name != name@,
        },
{
    let mut k: usize = 0;
    while k < dirs.len()
        invariant
            0 <= k <= dirs@.len(),
            forall|k2: int| 0 <= k2 < k ==> (#[trigger] dirs@[k2]@).name != name@,
        decreases dirs@.len() - k,
    {
        if crate::text::bytes_eq(&dirs[k].name, name) {
            return Some(k);
        }
        k = k + 1;
    }
    None
}

/// Whether some directory of `ds` is named `p`.
pub open spec fn has_dir(ds: Seq<Directory>, p: Seq<u8>) -> bool {
    exists|k: int| 0 <= k < ds.len() && (#[trigger] ds[k]@).name == p
}

/// Group the collected leaves into first-level directories.  Directory
/// order is arbitrary; within one directory the leaves keep their order.
#[verifier::rlimit(100)]
pub fn group_leaves(leaves: Vec<DebugHeader>) -> (r: Root)
    requires
        forall|i: int| 0 <= i < leaves@.len() ==> leaf_wf(#[trigger] leaves@[i]@),
    ensures
        root_wf(r@),
        grouped(leaves@.map_values(|l: DebugHeader| l@), r@),
{
    let ghost flat = leaves@.map_values(|l: DebugHeader| l@);
    let mut dirs: Vec<Directory> = Vec::new();
    let mut i: usize = 0;
    proof {
        assert(flat.subrange(0, 0) =~= Seq::<LeafV>::empty());
        reveal(Seq::filter);
    }
    while i < leaves.len()
        invariant
            0 <= i <= leaves@.len(),
            flat == leaves@.map_values(|l: DebugHeader| l@),
            flat.len() == leaves@.len(),
            forall|j: int| 0 <= j < leaves@.len() ==> #[trigger] leaves@[j]@ == flat[j],
            forall|j: int| 0 <= j < flat.len() ==> leaf_wf(#[trigger] flat[j]),
            forall|k1: int, k2: int| 0 <= k1 < k2 < dirs@.len() ==> (#[trigger] dirs@[k1]@).name
                != (#[trigger] dirs@[k2]@).name,
            forall|k: int| 0 <= k < dirs@.len() ==> dir_wf(#[trigger] dirs@[k]@),
            forall|k: int| 0 <= k < dirs@.len() ==> (#[trigger] dirs@[k]@).entries
                == prefix_filter(flat.subrange(0, i as int), dirs@[k]@.name),
            forall|j: int| 0 <= j < i ==> has_dir(dirs@, leaf_prefix(#[trigger] flat[j])),
            forall|k: int| 0 <= k < dirs@.len() ==> prefix_in(
                flat.subrange(0, i as int),
                (#[trigger] dirs@[k]@).name,
            ),
        decreases leaves@.len() - i,
    {
        let ghost pre = flat.subrange(0, i as int);
        let ghost prev_dirs = dirs@;
        let leaf = leaves[i].clone();
        let ghost lv = leaf@;
        let name = subrange_vec(&leaf.build_id, 0, 2);
        proof {
            assert(lv == flat[i as int]);
            assert(leaf_wf(lv));
            assert(name@ == leaf_prefix(lv));
        }
        match find_dir_idx(&dirs, &name) {
            Some(k) => {
                let mut d = dirs.swap_remove(k);
                d.entries.push(leaf);
                dirs.push(d);
                proof {
                    let newdirs = dirs@;
                    let next = flat.subrange(0, i as int + 1);
                    assert(next.drop_last() =~= pre);
                    assert(next.last() == lv);
                    assert(next =~= pre.push(lv));
                    assert(newdirs.len() == prev_dirs.len());
                    assert(newdirs[newdirs.len() - 1]@.name == prev_dirs[k as int]@.name);
                    assert(newdirs[newdirs.len() - 1]@.entries =~= prev_dirs[k as int]@.entries
                        .push(lv));
                    assert forall|k2: int| 0 <= k2 < newdirs.len() implies (
                    #[trigger] newdirs[k2]@).entries == prefix_filter(next, newdirs[k2]@.name) by {
                        lemma_prefix_filter_push(pre, newdirs[k2]@.name, lv);
                        if k2 == newdirs.len() - 1 {
                            assert(leaf_prefix(lv) == newdirs[k2]@.name);
                            assert(prefix_filter(pre, newdirs[k2]@.name) == prev_dirs[k as int]@
                                .entries);
                        } else {
                            let old_k2: int = if k2 == k {
                                prev_dirs.len() - 1
                            } else {
                                k2
                            };
                            assert(newdirs[k2] == prev_dirs[old_k2]);
                            assert(prev_dirs[old_k2]@.name != prev_dirs[k as int]@.name);
                            assert(leaf_prefix(lv) != newdirs[k2]@.name);
                            assert(prefix_filter(pre, newdirs[k2]@.name) == prev_dirs[old_k2]@
                                .entries);
                        }
                    }
                    assert forall|k2: int| 0 <= k2 < newdirs.len() implies dir_wf(
                        #[trigger] newdirs[k2]@,
                    ) by {
                        if k2 == newdirs.len() - 1 {
                            let dv = newdirs[k2]@;
                            assert(forall|e: int| 0 <= e < dv.entries.len() - 1
                                ==> #[trigger] dv.entries[e] == prev_dirs[k as int]@.entries[e]);
                            assert(dv.entries.last() == lv);
                        }
                    }
                    assert forall|k1: int, k2: int| 0 <= k1 < k2 < newdirs.len() implies (
                    #[trigger] newdirs[k1]@).name != (#[trigger] newdirs[k2]@).name by {
                        let o1: int = if k1 == k {
                            prev_dirs.len() - 1
                        } else {
                            k1
                        };
                        let o2: int = if k2 == newdirs.len() - 1 {
                            k as int
                        } else if k2 == k {
                            prev_dirs.len() - 1
                        } else {
                            k2
                        };
                        assert(newdirs[k1]@.name == prev_dirs[o1]@.name);
                        assert(newdirs[k2]@.name == prev_dirs[o2]@.name);
                    }
                    assert forall|j: int| 0 <= j < i + 1 implies has_dir(
                        newdirs,
                        leaf_prefix(#[trigger] flat[j]),
                    ) by {
                        if j < i {
                            assert(has_dir(prev_dirs, leaf_prefix(flat[j])));
                            let kk0 = choose|kk0: int| 0 <= kk0 < prev_dirs.len() && (
                            #[trigger] prev_dirs[kk0]@).name == leaf_prefix(flat[j]);
                            let kk: int = if kk0 == k {
                                newdirs.len() - 1
                            } else if kk0 == prev_dirs.len() - 1 {
                                k as int
                            } else {
                                kk0
                            };
                            assert(newdirs[kk]@.name == prev_dirs[kk0]@.name);
                        } else {
                            assert(newdirs[newdirs.len() - 1]@.name == leaf_prefix(lv));
                        }
                    }
                    assert forall|k2: int| 0 <= k2 < newdirs.len() implies prefix_in(
                        next,
                        (#[trigger] newdirs[k2]@).name,
                    ) by {
                        let old_k2: int = if k2 == newdirs.len() - 1 {
                            k as int
                        } else if k2 == k {
                            prev_dirs.len() - 1
                        } else {
                            k2
                        };
                        assert(newdirs[k2]@.name == prev_dirs[old_k2]@.name);
                        assert(prefix_in(pre, prev_dirs[old_k2]@.name));
                        lemma_prefix_in_push(pre, newdirs[k2]@.name, lv);
                    }
                }
            },
            None => {
                let mut entries: Vec<DebugHeader> = Vec::new();
                entries.push(leaf);
                dirs.push(Directory { name, entries });
                proof {
                    let newdirs = dirs@;
                    let next = flat.subrange(0, i as int + 1);
                    assert(next.drop_last() =~= pre);
                    assert(next.last() == lv);
                    assert(next =~= pre.push(lv));
                    let nd = newdirs[newdirs.len() - 1]@;
                    assert(nd.name == leaf_prefix(lv));
                    assert(nd.entries =~= Seq::<LeafV>::empty().push(lv));
                    assert forall|k2: int| 0 <= k2 < newdirs.len() implies (
                    #[trigger] newdirs[k2]@).entries == prefix_filter(next, newdirs[k2]@.name) by {
                        lemma_prefix_filter_push(pre, newdirs[k2]@.name, lv);
                        if k2 == newdirs.len() - 1 {
                            assert(leaf_prefix(lv) == newdirs[k2]@.name);
                            assert forall|j: int| 0 <= j < pre.len() implies leaf_prefix(
                                #[trigger] pre[j],
                            ) != nd.name by {
                                if leaf_prefix(pre[j]) == nd.name {
                                    assert(has_dir(prev_dirs, leaf_prefix(flat[j])));
                                    let kk = choose|kk: int| 0 <= kk < prev_dirs.len() && (
                                    #[trigger] prev_dirs[kk]@).name == leaf_prefix(flat[j]);
                                    assert(prev_dirs[kk]@.name == nd.name);
                                }
                            }
                            lemma_prefix_filter_none(pre, nd.name);
                            assert(nd.entries =~= prefix_filter(pre, nd.name).push(lv));
                        } else {
                            assert(newdirs[k2] == prev_dirs[k2]);
                            assert(prev_dirs[k2]@.name != nd.name);
                            assert(leaf_prefix(lv) != newdirs[k2]@.name);
                        }
                    }
                    assert forall|k2: int| 0 <= k2 < newdirs.len() implies dir_wf(
                        #[trigger] newdirs[k2]@,
                    ) by {
                        if k2 == newdirs.len() - 1 {
                            assert(nd.name.len() == 2);
                            assert(all_lower_hex(nd.name)) by {
                                assert(forall|e: int| 0 <= e < 2 ==> nd.name[e]
                                    == lv.build_id.subrange(0, 2)[e]);
                            }
                            assert(forall|e: int| 0 <= e < nd.entries.len() ==> #[trigger] nd
                                .entries[e] == lv);
                        }
                    }
                    assert forall|j: int| 0 <= j < i + 1 implies has_dir(
                        newdirs,
                        leaf_prefix(#[trigger] flat[j]),
                    ) by {
                        if j < i {
                            assert(has_dir(prev_dirs, leaf_prefix(flat[j])));
                            let kk0 = choose|kk0: int| 0 <= kk0 < prev_dirs.len() && (
                            #[trigger] prev_dirs[kk0]@).name == leaf_prefix(flat[j]);
                            assert(newdirs[kk0]@.name == leaf_prefix(flat[j]));
                        } else {
                            assert(newdirs[newdirs.len() - 1]@.name == leaf_prefix(lv));
                        }
                    }
                    assert forall|k2: int| 0 <= k2 < newdirs.len() implies prefix_in(
                        next,
                        (#[trigger] newdirs[k2]@).name,
                    ) by {
                        if k2 == newdirs.len() - 1 {
                            lemma_prefix_in_push(pre, nd.name, lv);
                        } else {
                            assert(newdirs[k2] == prev_dirs[k2]);
                            assert(prefix_in(pre, prev_dirs[k2]@.name));
                            lemma_prefix_in_push(pre, newdirs[k2]@.name, lv);
                        }
                    }
                }
            },
        }
        i = i + 1;
    }
    let result = Root { entries: dirs };
    proof {
        assert(flat.subrange(0, flat.len() as int) =~= flat);
        let ents = result@.entries;
        assert(ents.len() == result.entries@.len());
        assert(forall|k: int| 0 <= k < ents.len() ==> #[trigger] ents[k] == result.entries@[k]@);
        assert forall|k1: int, k2: int| 0 <= k1 < k2 < ents.len() implies (
        #[trigger] ents[k1]).name != (#[trigger] ents[k2]).name by {
            assert(result.entries@[k1]@.name != result.entries@[k2]@.name);
        }
        assert forall|k: int| 0 <= k < ents.len() implies (#[trigger] ents[k]).entries
            == prefix_filter(flat, ents[k].name) by {
            assert(result.entries@[k]@.entries == prefix_filter(
                flat.subrange(0, flat.len() as int),
                result.entries@[k]@.name,
            ));
        }
        assert forall|j: int| 0 <= j < flat.len() implies has_dirv(
            result@.entries,
            leaf_prefix(#[trigger] flat[j]),
        ) by {
            assert(has_dir(result.entries@, leaf_prefix(flat[j])));
            let kk = choose|kk: int| 0 <= kk < result.entries@.len() && (
            #[trigger] result.entries@[kk]@).name == leaf_prefix(flat[j]);
            assert(0 <= kk < result@.entries.len() && result@.entries[kk].name == leaf_prefix(
                flat[j],
            ));
        }
        assert forall|k: int| 0 <= k < ents.len() implies dir_wf(#[trigger] ents[k]) by {
            assert(dir_wf(result.entries@[k]@));
        }
        assert forall|k: int| 0 <= k < ents.len() implies prefix_in(
            flat,
            (#[trigger] ents[k]).name,
        ) by {
            assert(prefix_in(flat.subrange(0, flat.len() as int), result.entries@[k]@.name));
        }
        assert(leaves@.map_values(|l: DebugHeader| l@) == flat);
        assert(root_wf(result@));
        assert(forall|k1: int, k2: int| 0 <= k1 < k2 < result@.entries.len() ==> (
        #[trigger] result@.entries[k1]).name != (#[trigger] result@.entries[k2]).name);
        assert(forall|k: int| 0 <= k < result@.entries.len() ==> (#[trigger] result@.entries[k])
            .entries == prefix_filter(flat, result@.entries[k].name));
        assert(grouped(flat, result@));
    }
    result
}

/// The literal `/dists/`.
pub open spec fn dists_lit() -> Seq<u8> {
    seq![0x2fu8, 0x64u8, 0x69u8, 0x73u8, 0x74u8, 0x73u8, 0x2fu8]
}

/// The literal `/binary-amd64/Packages.xz`.
pub open spec fn packages_lit() -> Seq<u8> {
    seq![
        0x2fu8, 0x62u8, 0x69u8, 0x6eu8, 0x61u8, 0x72u8, 0x79u8, 0x2du8, 0x61u8, 0x6du8, 0x64u8,
        0x36u8, 0x34u8, 0x2fu8, 0x50u8, 0x61u8, 0x63u8, 0x6bu8, 0x61u8, 0x67u8, 0x65u8, 0x73u8,
        0x2eu8, 0x78u8, 0x7au8,
    ]
}

/// The URL of the compressed package index under an archive root, for a
/// suite and component.
pub open spec fn packages_url(root: Seq<u8>, suite: Seq<u8>, component: Seq<u8>) -> Seq<u8> {
    root + dists_lit() + suite + seq![0x2fu8] + component + packages_lit()
}

/// One archive of debug symbols: the configuration a server session
/// serves from.
pub struct Debug {
    /// The archive's root URL.
    pub archive_root: Vec<u8>,
    /// The URL of the compressed package index.
    pub packages: Vec<u8>,
}

impl Debug {
    /// Remember the archive root and derive the package index URL from
    /// the suite and component names.
    pub fn new(archive_root: &Vec<u8>, suite: &Vec<u8>, component: &Vec<u8>) -> (r: Debug)
        ensures
            r.archive_root@ == archive_root@,
            r.packages@ == packages_url(archive_root@, suite@, component@),
    {
        let root = subrange_vec(archive_root, 0, archive_root.len());
        proof {
            assert(archive_root@.subrange(0, archive_root@.len() as int) =~= archive_root@);
        }
        let mut packages = subrange_vec(archive_root, 0, archive_root.len());
        packages.push(0x2f);
        packages.push(0x64);
        packages.push(0x69);
        packages.push(0x73);
        packages.push(0x74);
        packages.push(0x73);
        packages.push(0x2f);
        proof {
            assert(packages@ =~= archive_root@ + dists_lit());
        }
        append_bytes(&mut packages, suite);
        packages.push(0x2f);
        proof {
            assert(packages@ =~= archive_root@ + dists_lit() + suite@ + seq![0x2fu8]);
        }
        append_bytes(&mut packages, component);
        packages.push(0x2f);
        packages.push(0x62);
        packages.push(0x69);
        packages.push(0x6e);
        packages.push(0x61);
        packages.push(0x72);
        packages.push(0x79);
        packages.push(0x2d);
        packages.push(0x61);
        packages.push(0x6d);
        packages.push(0x64);
        packages.push(0x36);
        packages.push(0x34);
        packages.push(0x2f);
        packages.push(0x50);
        packages.push(0x61);
        packages.push(0x63);
        packages.push(0x6b);
        packages.push(0x61);
        packages.push(0x67);
        packages.push(0x65);
        packages.push(0x73);
        packages.push(0x2e);
        packages.push(0x78);
        packages.push(0x7a);
        proof {
            assert(packages@ =~= packages_url(archive_root@, suite@, component@));
        }
        Debug { archive_root: root, packages }
    }

    /// Build the session's directory tree from the fetched, compressed
    /// package index.  Any failure (the body is not a valid `xz` stream,
    /// or a paragraph is malformed) aborts the attach with the single
    /// upstream error.
    pub fn attach(&self, packages_xz: &Vec<u8>) -> (r: Result<crate::debugfs::File, FsError>)
        ensures
            match r {
                Ok(f) => {
                    &&& crate::xz::xz_plain_of(packages_xz@) matches Some(index) && paras(index)
                        matches Some(ms) && (f@ matches crate::debugfs::FileV::Root(rv)
                        && root_wf(rv) && grouped(flat_leaves(ms, self.archive_root@), rv))
                },
                Err(e) => {
                    &&& e == FsError::Remoteio
                    &&& match crate::xz::xz_plain_of(packages_xz@) {
                        Some(index) => paras(index) is None,
                        None => true,
                    }
                },
            },
    {
        let index = match crate::xz::xz_decompress(packages_xz) {
            Ok(v) => v,
            Err(_) => {
                return Err(FsError::Remoteio);
            },
        };
        let leaves = match collect_leaves(&index, &self.archive_root) {
            Ok(v) => v,
            Err(e) => {
                return Err(e);
            },
        };
        let root = group_leaves(leaves);
        Ok(crate::debugfs::File::Root(root))
    }
}

proof fn lemma_prefix_filter_contains(s: Seq<LeafV>, name: Seq<u8>, i: int)
    requires
        0 <= i < s.len(),
        leaf_prefix(s[i]) == name,
    ensures
        prefix_filter(s, name).contains(s[i]),
    decreases s.len(),
{
    reveal(Seq::filter);
    let f = prefix_filter(s, name);
    if i == s.len() - 1 {
        assert(s.drop_last().filter(|l: LeafV| leaf_prefix(l) == name).push(s.last())[f.len()
            - 1] == s[i]);
    } else {
        let t = s.drop_last();
        assert(t[i] == s[i]);
        lemma_prefix_filter_contains(t, name, i);
        let ft = prefix_filter(t, name);
        let j = choose|j: int| 0 <= j < ft.len() && ft[j] == s[i];
        if leaf_prefix(s.last()) == name {
            assert(f == ft.push(s.last()));
            assert(f[j] == s[i]);
        } else {
            assert(f == ft);
        }
    }
}

proof fn lemma_prefix_filter_pred(s: Seq<LeafV>, name: Seq<u8>)
    ensures
        forall|j: int| 0 <= j < prefix_filter(s, name).len() ==> leaf_prefix(
            #[trigger] prefix_filter(s, name)[j],
        ) == name,
    decreases s.len(),
{
    reveal(Seq::filter);
    if s.len() > 0 {
        let t = s.drop_last();
        lemma_prefix_filter_pred(t, name);
        let ft = prefix_filter(t, name);
        let f = prefix_filter(s, name);
        if leaf_prefix(s.last()) == name {
            assert(f == ft.push(s.last()));
            assert(forall|j: int| 0 <= j < ft.len() ==> #[trigger] f[j] == ft[j]);
            assert(f[f.len() - 1] == s.last());
        } else {
            assert(f == ft);
        }
    }
}

proof fn lemma_find_dir_unique(ds: Seq<DirV>, k: int)
    requires
        0 <= k < ds.len(),
        forall|k1: int, k2: int| 0 <= k1 < k2 < ds.len() ==> (#[trigger] ds[k1]).name != (
        #[trigger] ds[k2]).name,
    ensures
        crate::debugfs::find_dir(ds, ds[k].name) == Some(ds[k]),
    decreases ds.len(),
{
    if k == 0 {
        assert(ds.first() == ds[0]);
    } else {
        assert(ds.first().name != ds[k].name);
        let t = ds.drop_first();
        assert(forall|j: int| 0 <= j < t.len() ==> #[trigger] t[j] == ds[j + 1]);
        assert forall|k1: int, k2: int| 0 <= k1 < k2 < t.len() implies (#[trigger] t[k1]).name
            != (#[trigger] t[k2]).name by {
            assert(ds[k1 + 1].name != ds[k2 + 1].name);
        }
        assert(t[k - 1] == ds[k]);
        lemma_find_dir_unique(t, k - 1);
    }
}

proof fn lemma_find_leaf_named(ls: Seq<LeafV>, n: Seq<u8>)
    requires
        exists|i: int| 0 <= i < ls.len() && (#[trigger] ls[i]).name == n,
    ensures
        crate::debugfs::find_leaf(ls, n) matches Some(l) && l.name == n && ls.contains(l),
    decreases ls.len(),
{
    let i = choose|i: int| 0 <= i < ls.len() && (#[trigger] ls[i]).name == n;
    if ls.first().name == n {
        assert(ls[0] == ls.first());
    } else {
        assert(i > 0);
        let t = ls.drop_first();
        assert(t[i - 1] == ls[i]);
        assert(exists|j: int| 0 <= j < t.len() && (#[trigger] t[j]).name == n) by {
            assert(t[i - 1].name == n);
        }
        lemma_find_leaf_named(t, n);
        match crate::debugfs::find_leaf(t, n) {
            Some(l) => {
                let j = choose|j: int| 0 <= j < t.len() && t[j] == l;
                assert(ls[j + 1] == l);
            },
            None => {},
        }
    }
}

/// On a tree that groups the index's leaves, every leaf is reachable: the
/// two-component walk of its directory prefix and its display name
/// resolves, through a chain of the root and that directory, to a leaf of
/// that name in that directory.
pub proof fn lemma_attach_walk_resolves(flat: Seq<LeafV>, rv: RootV, i: int)
    requires
        grouped(flat, rv),
        0 <= i < flat.len(),
    ensures
        ({
            let r = crate::debugfs::walk_spec(
                crate::debugfs::FileV::Root(rv),
                seq![leaf_prefix(flat[i]), flat[i].name],
            );
            &&& r.0 matches Some(f) && (f matches crate::debugfs::FileV::DebugHeader(l) && l.name
                == flat[i].name && leaf_prefix(l) == leaf_prefix(flat[i]))
            &&& r.1.len() == 2
            &&& r.1[0] == crate::debugfs::FileV::Root(rv)
            &&& r.1[1] matches crate::debugfs::FileV::Directory(d) && d.name == leaf_prefix(
                flat[i],
            )
        }),
{
    let p = leaf_prefix(flat[i]);
    let n = flat[i].name;
    assert(has_dirv(rv.entries, p));
    let k = choose|k: int| 0 <= k < rv.entries.len() && (#[trigger] rv.entries[k]).name == p;
    lemma_find_dir_unique(rv.entries, k);
    let d = rv.entries[k];
    assert(crate::debugfs::find_dir(rv.entries, p) == Some(d));
    assert(d.entries == prefix_filter(flat, p));
    lemma_prefix_filter_contains(flat, p, i);
    let j = choose|j: int| 0 <= j < d.entries.len() && d.entries[j] == flat[i];
    assert(exists|j2: int| 0 <= j2 < d.entries.len() && (#[trigger] d.entries[j2]).name == n) by {
        assert(d.entries[j].name == n);
    }
    lemma_find_leaf_named(d.entries, n);
    let path = seq![p, n];
    assert(path.first() == p);
    assert(path.drop_first() =~= seq![n]);
    assert(seq![n].first() == n);
    assert(seq![n].drop_first() =~= Seq::<Seq<u8>>::empty());
    match crate::debugfs::find_leaf(d.entries, n) {
        Some(l) => {
            let jl = choose|jl: int| 0 <= jl < d.entries.len() && d.entries[jl] == l;
            lemma_prefix_filter_pred(flat, p);
            assert(leaf_prefix(prefix_filter(flat, p)[jl]) == p);
            assert(leaf_prefix(l) == p);
            let dirv = crate::debugfs::FileV::Directory(d);
            let leafv = crate::debugfs::FileV::DebugHeader(l);
            let r2 = crate::debugfs::walk_spec(leafv, Seq::<Seq<u8>>::empty());
            assert(r2 == (Some(leafv), Seq::<crate::debugfs::FileV>::empty()));
            let r1 = crate::debugfs::walk_spec(dirv, seq![n]);
            assert(r1.0 == Some(leafv));
            assert(r1.1 =~= seq![dirv]);
            let r0 = crate::debugfs::walk_spec(crate::debugfs::FileV::Root(rv), path);
            assert(r0.0 == Some(leafv));
            assert(r0.1 =~= seq![crate::debugfs::FileV::Root(rv)] + seq![dirv]);
            assert(r0.1.len() == 2);
            assert(r0.1[0] == crate::debugfs::FileV::Root(rv));
            assert(r0.1[1] == dirv);
        },
        None => {
            assert(false);
        },
    }
}

} // verus!\n
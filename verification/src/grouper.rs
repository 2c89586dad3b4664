//! The grouper: merges all collections' (key, paths) entries into one
//! mapping from the flattened composite key to {tag -> paths}.
//!
//! When two entries produce the same composite key their path lists are
//! concatenated, never overwritten.  The `spec_group_*` functions state
//! the merge exactly, as a fold over collections in declared order and
//! buckets in discovery order; `group_files` is proved to produce
//! precisely their value.

use vstd::prelude::*;

use crate::finder::FileCollection;
use crate::key::key_string;
use crate::types::{Group, TagName};
use vstd::string::StringExecFns;

verus! {

/// The mathematical form of one group: tag text to path texts, in first-
/// appearance order.
pub open spec fn group_view(g: Group) -> Seq<(Seq<char>, Seq<Seq<char>>)> {
    g.files@.map_values(
        |e: (TagName, Vec<String>)| (e.0.0@, e.1@.map_values(|p: String| p@)),
    )
}

/// The mathematical form of the grouping output.
pub open spec fn groups_view(v: Seq<(String, Group)>) -> Seq<
    (Seq<char>, Seq<(Seq<char>, Seq<Seq<char>>)>),
> {
    v.map_values(|e: (String, Group)| (e.0@, group_view(e.1)))
}

/// The tag and buckets of each collection, in declared order.
pub open spec fn colls_tb(cs: Seq<FileCollection>) -> Seq<
    (Seq<char>, Seq<(Seq<(Seq<char>, Seq<char>)>, Seq<Seq<char>>)>),
> {
    cs.map_values(|c: FileCollection| (c.tag.0@, crate::finder::coll_view(c.files@)))
}

/// Appending paths under one tag inside a group: the first entry of that
/// tag grows, or a new entry opens at the end.
pub open spec fn tag_insert(
    ts: Seq<(Seq<char>, Seq<Seq<char>>)>,
    tag: Seq<char>,
    paths: Seq<Seq<char>>,
) -> Seq<(Seq<char>, Seq<Seq<char>>)>
    decreases ts.len(),
{
    if ts.len() == 0 {
        seq![(tag, paths)]
    } else if ts[0].0 == tag {
        seq![(ts[0].0, ts[0].1 + paths)] + ts.skip(1)
    } else {
        seq![ts[0]] + tag_insert(ts.skip(1), tag, paths)
    }
}

/// Merging one (composite key, tag, paths) entry into the output: the
/// first group of that key receives it, or a new group opens at the end.
pub open spec fn spec_group_insert(
    gs: Seq<(Seq<char>, Seq<(Seq<char>, Seq<Seq<char>>)>)>,
    gkey: Seq<char>,
    tag: Seq<char>,
    paths: Seq<Seq<char>>,
) -> Seq<(Seq<char>, Seq<(Seq<char>, Seq<Seq<char>>)>)>
    decreases gs.len(),
{
    if gs.len() == 0 {
        seq![(gkey, seq![(tag, paths)])]
    } else if gs[0].0 == gkey {
        seq![(gs[0].0, tag_insert(gs[0].1, tag, paths))] + gs.skip(1)
    } else {
        seq![gs[0]] + spec_group_insert(gs.skip(1), gkey, tag, paths)
    }
}

/// Merging one collection's buckets from `b` on, in discovery order.
pub open spec fn spec_group_buckets(
    gs: Seq<(Seq<char>, Seq<(Seq<char>, Seq<Seq<char>>)>)>,
    tag: Seq<char>,
    buckets: Seq<(Seq<(Seq<char>, Seq<char>)>, Seq<Seq<char>>)>,
    b: int,
) -> Seq<(Seq<char>, Seq<(Seq<char>, Seq<Seq<char>>)>)>
    decreases buckets.len() - b,
{
    if b < 0 || b >= buckets.len() {
        gs
    } else {
        spec_group_buckets(
            spec_group_insert(gs, key_string(buckets[b].0), tag, buckets[b].1),
            tag,
            buckets,
            b + 1,
        )
    }
}

/// Merging the collections from `c` on, in declared order.
pub open spec fn spec_group_colls(
    gs: Seq<(Seq<char>, Seq<(Seq<char>, Seq<Seq<char>>)>)>,
    colls: Seq<(Seq<char>, Seq<(Seq<(Seq<char>, Seq<char>)>, Seq<Seq<char>>)>)>,
    c: int,
) -> Seq<(Seq<char>, Seq<(Seq<char>, Seq<Seq<char>>)>)>
    decreases colls.len() - c,
{
    if c < 0 || c >= colls.len() {
        gs
    } else {
        spec_group_colls(spec_group_buckets(gs, colls[c].0, colls[c].1, 0), colls, c + 1)
    }
}

proof fn lemma_tag_insert_at(
    ts: Seq<(Seq<char>, Seq<Seq<char>>)>,
    tag: Seq<char>,
    paths: Seq<Seq<char>>,
    t: int,
)
    requires
        0 <= t < ts.len(),
        ts[t].0 == tag,
        forall|x: int| 0 <= x < t ==> ts[x].0 != tag,
    ensures
        tag_insert(ts, tag, paths) == ts.update(t, (ts[t].0, ts[t].1 + paths)),
    decreases t,
{
    if t == 0 {
        assert(tag_insert(ts, tag, paths) =~= ts.update(0, (ts[0].0, ts[0].1 + paths)));
    } else {
        assert(forall|x: int| 0 <= x < t - 1 ==> ts.skip(1)[x] == ts[x + 1]);
        lemma_tag_insert_at(ts.skip(1), tag, paths, t - 1);
        assert(tag_insert(ts, tag, paths) =~= ts.update(t, (ts[t].0, ts[t].1 + paths)));
    }
}

proof fn lemma_tag_insert_new(
    ts: Seq<(Seq<char>, Seq<Seq<char>>)>,
    tag: Seq<char>,
    paths: Seq<Seq<char>>,
)
    requires
        forall|x: int| 0 <= x < ts.len() ==> (#[trigger] ts[x]).0 != tag,
    ensures
        tag_insert(ts, tag, paths) == ts.push((tag, paths)),
    decreases ts.len(),
{
    if ts.len() == 0 {
        assert(tag_insert(ts, tag, paths) =~= ts.push((tag, paths)));
    } else {
        lemma_tag_insert_new(ts.skip(1), tag, paths);
        assert(tag_insert(ts, tag, paths) =~= ts.push((tag, paths)));
    }
}

proof fn lemma_group_insert_at(
    gs: Seq<(Seq<char>, Seq<(Seq<char>, Seq<Seq<char>>)>)>,
    gkey: Seq<char>,
    tag: Seq<char>,
    paths: Seq<Seq<char>>,
    g: int,
)
    requires
        0 <= g < gs.len(),
        gs[g].0 == gkey,
        forall|x: int| 0 <= x < g ==> gs[x].0 != gkey,
    ensures
        spec_group_insert(gs, gkey, tag, paths) == gs.update(
            g,
            (gs[g].0, tag_insert(gs[g].1, tag, paths)),
        ),
    decreases g,
{
    if g == 0 {
        assert(spec_group_insert(gs, gkey, tag, paths) =~= gs.update(
            0,
            (gs[0].0, tag_insert(gs[0].1, tag, paths)),
        ));
    } else {
        assert(forall|x: int| 0 <= x < g - 1 ==> gs.skip(1)[x] == gs[x + 1]);
        lemma_group_insert_at(gs.skip(1), gkey, tag, paths, g - 1);
        assert(spec_group_insert(gs, gkey, tag, paths) =~= gs.update(
            g,
            (gs[g].0, tag_insert(gs[g].1, tag, paths)),
        ));
    }
}

proof fn lemma_group_insert_new(
    gs: Seq<(Seq<char>, Seq<(Seq<char>, Seq<Seq<char>>)>)>,
    gkey: Seq<char>,
    tag: Seq<char>,
    paths: Seq<Seq<char>>,
)
    requires
        forall|x: int| 0 <= x < gs.len() ==> (#[trigger] gs[x]).0 != gkey,
    ensures
        spec_group_insert(gs, gkey, tag, paths) == gs.push((gkey, seq![(tag, paths)])),
    decreases gs.len(),
{
    if gs.len() == 0 {
        assert(spec_group_insert(gs, gkey, tag, paths) =~= gs.push((gkey, seq![(tag, paths)])));
    } else {
        lemma_group_insert_new(gs.skip(1), gkey, tag, paths);
        assert(spec_group_insert(gs, gkey, tag, paths) =~= gs.push((gkey, seq![(tag, paths)])));
    }
}

/// Merges one bucket's paths into the output under its composite key and
/// its collection's tag.
fn group_one(groups: &mut Vec<(String, Group)>, gk: String, tag: &TagName, paths: Vec<String>)
    ensures
        groups_view(final(groups)@) == spec_group_insert(
            groups_view(old(groups)@),
            gk@,
            tag.0@,
            paths@.map_values(|p: String| p@),
        ),
{
    let ghost gs0 = groups_view(groups@);
    let ghost pathsv = paths@.map_values(|p: String| p@);
    let mut gfound: usize = groups.len();
    let mut g: usize = 0;
    while g < groups.len() && gfound == groups.len()
        invariant
            g <= groups@.len(),
            gfound == groups@.len() || (0 <= gfound < groups@.len() && gfound <= g
                && groups_view(groups@)[gfound as int].0 == gk@),
            forall|x: int| 0 <= x < g && x != gfound ==> groups_view(groups@)[x].0 != gk@,
        decreases groups@.len() - g + (if gfound == groups@.len() {
            1int
        } else {
            0int
        }),
    {
        assert(groups_view(groups@)[g as int].0 == groups@[g as int].0@);
        if groups[g].0 == gk {
            gfound = g;
        } else {
            g = g + 1;
        }
    }
    if gfound == groups.len() {
        let tagc = TagName(tag.0.clone());
        let mut files: Vec<(TagName, Vec<String>)> = Vec::new();
        files.push((tagc, paths));
        groups.push((gk, Group { files }));
        proof {
            lemma_group_insert_new(gs0, gk@, tag.0@, pathsv);
            assert(groups_view(groups@) =~~= spec_group_insert(gs0, gk@, tag.0@, pathsv));
        }
        return ;
    }
    let ghost groupsb = groups@;
    let mut grp = groups.remove(gfound);
    let ghost ts0 = group_view(grp.1);
    let mut tfound: usize = grp.1.files.len();
    let mut t: usize = 0;
    while t < grp.1.files.len() && tfound == grp.1.files.len()
        invariant
            t <= grp.1.files@.len(),
            tfound == grp.1.files@.len() || (0 <= tfound < grp.1.files@.len() && tfound <= t
                && group_view(grp.1)[tfound as int].0 == tag.0@),
            forall|x: int| 0 <= x < t && x != tfound ==> group_view(grp.1)[x].0 != tag.0@,
        decreases grp.1.files@.len() - t + (if tfound == grp.1.files@.len() {
            1int
        } else {
            0int
        }),
    {
        assert(group_view(grp.1)[t as int].0 == grp.1.files@[t as int].0.0@);
        if grp.1.files[t].0.0 == tag.0 {
            tfound = t;
        } else {
            t = t + 1;
        }
    }
    if tfound == grp.1.files.len() {
        let tagc = TagName(tag.0.clone());
        grp.1.files.push((tagc, paths));
        proof {
            lemma_tag_insert_new(ts0, tag.0@, pathsv);
            assert(group_view(grp.1) =~~= tag_insert(ts0, tag.0@, pathsv));
        }
    } else {
        let ghost filesb = grp.1.files@;
        let mut row = grp.1.files.remove(tfound);
        let mut ps = paths;
        row.1.append(&mut ps);
        grp.1.files.insert(tfound, row);
        proof {
            assert(grp.1.files@ =~= filesb.update(tfound as int, grp.1.files@[tfound as int]));
            lemma_tag_insert_at(ts0, tag.0@, pathsv, tfound as int);
            assert(group_view(grp.1) =~~= tag_insert(ts0, tag.0@, pathsv));
        }
    }
    groups.insert(gfound, grp);
    proof {
        assert(groups@ =~= groupsb.update(gfound as int, groups@[gfound as int]));
        lemma_group_insert_at(gs0, gk@, tag.0@, pathsv, gfound as int);
        assert(groups_view(groups@) =~~= spec_group_insert(gs0, gk@, tag.0@, pathsv));
    }
}

/// Merges all collections' entries into one mapping from composite key to
/// {tag -> paths}: collections in declared order, buckets in discovery
/// order, path lists concatenated on key collisions, never overwritten.
pub fn group_files(collections: Vec<FileCollection>) -> (r: Vec<(String, Group)>)
    ensures
        groups_view(r@) == spec_group_colls(
            Seq::<(Seq<char>, Seq<(Seq<char>, Seq<Seq<char>>)>)>::empty(),
            colls_tb(collections@),
            0,
        ),
{
    let ghost cs0 = collections@;
    let ghost tb = colls_tb(collections@);
    let mut groups: Vec<(String, Group)> = Vec::new();
    let mut cols = collections;
    let ghost final_gs = spec_group_colls(
        Seq::<(Seq<char>, Seq<(Seq<char>, Seq<Seq<char>>)>)>::empty(),
        tb,
        0,
    );
    proof {
        assert(groups_view(groups@) =~~= Seq::<
            (Seq<char>, Seq<(Seq<char>, Seq<Seq<char>>)>),
        >::empty());
        assert(cols@ =~= cs0.skip(0));
    }
    while cols.len() > 0
        invariant
            cols@.len() <= cs0.len(),
            cols@ == cs0.skip(cs0.len() - cols@.len()),
            tb == colls_tb(cs0),
            final_gs == spec_group_colls(
                groups_view(groups@),
                tb,
                cs0.len() - cols@.len(),
            ),
        decreases cols@.len(),
    {
        let ghost c = cs0.len() - cols@.len();
        assert(cols@[0] == cs0[c as int]);
        let col = cols.remove(0);
        let tag = col.tag;
        let mut files = col.files;
        let ghost buckets = crate::finder::coll_view(cs0[c as int].files@);
        let ghost nb = files@.len() as int;
        proof {
            assert(cols@ =~= cs0.skip(c + 1));
            assert(tb[c as int] == (cs0[c as int].tag.0@, buckets));
            assert(spec_group_colls(groups_view(groups@), tb, c as int) == spec_group_colls(
                spec_group_buckets(groups_view(groups@), tag.0@, buckets, 0),
                tb,
                c as int + 1,
            ));
        }
        while files.len() > 0
            invariant
                files@.len() <= nb,
                nb == buckets.len(),
                files@ == cs0[c as int].files@.skip(nb - files@.len() as int),
                buckets == crate::finder::coll_view(cs0[c as int].files@),
                tag == cs0[c as int].tag,
                final_gs == spec_group_colls(
                    spec_group_buckets(
                        groups_view(groups@),
                        tag.0@,
                        buckets,
                        nb - files@.len() as int,
                    ),
                    tb,
                    c + 1,
                ),
                0 <= c < cs0.len(),
            decreases files@.len(),
        {
            let ghost b = nb - files@.len() as int;
            assert(files@[0] == cs0[c as int].files@[b]);
            let bucket = files.remove(0);
            let gk = bucket.0.as_string();
            proof {
                assert(files@ =~= cs0[c as int].files@.skip(b + 1));
                assert(buckets[b] == (bucket.0@, bucket.1@.map_values(|p: String| p@)));
                assert(gk@ == key_string(buckets[b].0));
            }
            let ghost gv_before = groups_view(groups@);
            group_one(&mut groups, gk, &tag, bucket.1);
            proof {
                assert(groups_view(groups@) == spec_group_insert(
                    gv_before,
                    key_string(buckets[b].0),
                    tag.0@,
                    buckets[b].1,
                ));
                assert(spec_group_buckets(gv_before, tag.0@, buckets, b) == spec_group_buckets(
                    groups_view(groups@),
                    tag.0@,
                    buckets,
                    b + 1,
                ));
            }
        }
    }
    proof {
        assert(spec_group_colls(groups_view(groups@), tb, cs0.len() as int) == groups_view(
            groups@,
        ));
    }
    groups
}

} // verus!
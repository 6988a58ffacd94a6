//! Symbolic links that point nowhere.

use vstd::prelude::*;
use crate::cmd::dups::separator;
use crate::data::pairs_view;
use crate::path::{Path, PathView};
use crate::vecs::extend;

verus! {

/// What became of the attempt to resolve a link's own path all the way to
/// what it names.
#[derive(Debug, Clone, Copy, PartialEq, Eq, Structural)]
pub enum Resolution {
    /// The path names something.
    Resolved,
    /// Something along the way does not exist.
    NotFound,
    /// The attempt failed for another reason. Nothing is known.
    Failed,
}

/// The value of a link, its target and what resolving it gave.
pub open spec fn probed_view(probed: Seq<(Path, Path, Resolution)>) -> Seq<
    (PathView, PathView, Resolution),
> {
    probed.map_values(|probe: (Path, Path, Resolution)| (probe.0@, probe.1@, probe.2))
}

/// A link counts as dangling only when its path was found not to exist. A
/// failure of any other kind proves nothing, and the link is not reported.
pub open spec fn dangling(probe: (PathView, PathView, Resolution)) -> Option<(PathView, PathView)> {
    if probe.2 == Resolution::NotFound {
        Some((probe.0, probe.1))
    } else {
        None
    }
}

/// The choice of dangling links among those probed.
pub open spec fn danglers() -> spec_fn((PathView, PathView, Resolution)) -> Option<
    (PathView, PathView),
> {
    |probe: (PathView, PathView, Resolution)| dangling(probe)
}

/// The links among `probed` that dangle, each with its target as stored, in
/// the order given.
pub fn dangling_symlinks(probed: &Vec<(Path, Path, Resolution)>) -> (res: Vec<(Path, Path)>)
    ensures
        pairs_view(res@) == probed_view(probed@).filter_map(danglers()),
{
    let ghost pick = danglers();
    let ghost all = probed_view(probed@);
    let mut res: Vec<(Path, Path)> = Vec::new();
    let mut i: usize = 0;
    assert(pairs_view(res@) =~= all.take(0).filter_map(pick));
    while i < probed.len()
        invariant
            i <= probed.len(),
            all == probed_view(probed@),
            pick == danglers(),
            pairs_view(res@) == all.take(i as int).filter_map(pick),
        decreases probed.len() - i,
    {
        let probe = &probed[i];
        let ghost r0 = res@;
        proof {
            all.lemma_filter_map_take_succ(pick, i as int);
            assert(all[i as int] == (probe.0@, probe.1@, probe.2));
        }
        match probe.2 {
            Resolution::NotFound => {
                res.push((probe.0.clone(), probe.1.clone()));
                assert(pairs_view(res@) =~= pairs_view(r0) + seq![(probe.0@, probe.1@)]);
            },
            _ => {
                assert(pairs_view(res@) =~= pairs_view(r0) + Seq::empty());
            },
        }
        i += 1;
    }
    assert(all.take(probed.len() as int) =~= all);
    res
}

/// The bytes of ` -> `, which stand between a link and its target.
pub open spec fn arrow() -> Seq<u8> {
    seq![32u8, 45u8, 62u8, 32u8]
}

/// One record of the report: the link, followed on request by an arrow and
/// the target, and then `sep`.
pub open spec fn rendered_link(link: (Seq<u8>, Seq<u8>), print_with_target: bool, sep: u8) -> Seq<
    u8,
> {
    if print_with_target {
        link.0 + arrow() + link.1 + seq![sep]
    } else {
        link.0 + seq![sep]
    }
}

/// The report: one record for each link, in order.
pub open spec fn rendered_links(links: Seq<(Seq<u8>, Seq<u8>)>, print_with_target: bool, sep: u8) -> Seq<
    u8,
>
    decreases links.len(),
{
    if links.len() == 0 {
        Seq::empty()
    } else {
        rendered_links(links.drop_last(), print_with_target, sep) + rendered_link(
            links.last(),
            print_with_target,
            sep,
        )
    }
}

/// The values of a list of links written out.
pub open spec fn texts_view(links: Seq<(Vec<u8>, Vec<u8>)>) -> Seq<(Seq<u8>, Seq<u8>)> {
    links.map_values(|link: (Vec<u8>, Vec<u8>)| (link.0@, link.1@))
}

/// The report of dangling links. Each link comes with its own path and its
/// target, both written out beforehand by the caller. A record is the link,
/// or with `print_with_target` the link, ` -> ` and the target. Records end
/// in a line feed, or in a zero byte if `null_line_sep` is set.
pub fn dang(links: &Vec<(Vec<u8>, Vec<u8>)>, print_with_target: bool, null_line_sep: bool) -> (res:
    Vec<u8>)
    ensures
        res@ == rendered_links(texts_view(links@), print_with_target, separator(null_line_sep)),
{
    let sep: u8 = if null_line_sep {
        0u8
    } else {
        10u8
    };
    let ghost all = texts_view(links@);
    let mut out: Vec<u8> = Vec::new();
    let mut i: usize = 0;
    assert(out@ =~= rendered_links(all.take(0), print_with_target, sep));
    while i < links.len()
        invariant
            i <= links.len(),
            all == texts_view(links@),
            out@ == rendered_links(all.take(i as int), print_with_target, sep),
        decreases links.len() - i,
    {
        let ghost before = out@;
        extend(&mut out, links[i].0.as_slice());
        if print_with_target {
            out.push(32u8);
            out.push(45u8);
            out.push(62u8);
            out.push(32u8);
            extend(&mut out, links[i].1.as_slice());
        }
        out.push(sep);
        proof {
            assert(all.take(i + 1).drop_last() =~= all.take(i as int));
            assert(all.take(i + 1).last() == (links@[i as int].0@, links@[i as int].1@));
            assert(out@ =~= before + rendered_link(all[i as int], print_with_target, sep));
        }
        i += 1;
    }
    assert(all.take(links.len() as int) =~= all);
    out
}

} // verus!

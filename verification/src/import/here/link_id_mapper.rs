//! From the link identifiers of a map vendor to arcs and back.
use vstd::prelude::*;
use crate::datastr::rank_select_map::InvertableRankSelectMap;
use crate::types::EdgeId;

verus! {

/// In which direction a link is travelled: from its reference node or towards it.
#[derive(Debug, Clone, Copy, PartialEq, Eq)]
pub enum LinkDirection {
    FromRef,
    ToRef,
}

/// The arcs of a link: the one from its reference node and the one towards it.
pub type LinkArcs = (Option<EdgeId>, Option<EdgeId>);

/// Whether `arcs` holds the arc `edge_id`.
pub open spec fn spec_holds(arcs: LinkArcs, edge_id: int) -> bool {
    (arcs.0 matches Some(e) && e == edge_id) || (arcs.1 matches Some(e) && e == edge_id)
}

/// The last of the first `k` links that holds the arc `edge_id`; zero if none does.
pub open spec fn spec_link_of(links: Seq<LinkArcs>, edge_id: int, k: int) -> int
    decreases k,
{
    if k <= 0 {
        0
    } else if spec_holds(links[k - 1], edge_id) {
        k - 1
    } else {
        spec_link_of(links, edge_id, k - 1)
    }
}

/// Maps the link identifiers of the vendor to arcs, and arcs to link identifiers.
#[derive(Debug)]
pub struct LinkIdMapper {
    link_id_mapping: InvertableRankSelectMap,
    here_rank_to_link_id: Vec<LinkArcs>,
    link_id_to_here_rank: Vec<EdgeId>,
}

impl LinkIdMapper {
    /// Which identifiers of the vendor are known.
    pub closed spec fn spec_mapping(&self) -> InvertableRankSelectMap {
        self.link_id_mapping
    }

    /// The arcs of every known link, by the rank of its identifier.
    pub closed spec fn spec_links(&self) -> Seq<LinkArcs> {
        self.here_rank_to_link_id@
    }

    /// The rank of the link of every arc.
    pub closed spec fn spec_ranks(&self) -> Seq<EdgeId> {
        self.link_id_to_here_rank@
    }

    /// Representation invariant: one entry per known link, and the rank of
    /// every arc is the rank of a link.
    pub closed spec fn wf(&self) -> bool {
        &&& self.link_id_mapping.wf()
        &&& self.here_rank_to_link_id@.len() == self.link_id_mapping.spec_count()
        &&& forall|e: int|
            0 <= e < self.link_id_to_here_rank@.len() ==> (#[trigger] self.link_id_to_here_rank@[e])
                < self.link_id_mapping.spec_count()
    }

    /// A mapper for `num_arcs` arcs.  `link_id_mapping` marks the
    /// identifiers that are known, and `here_rank_to_link_id` gives the
    /// arcs of every known link.  An arc that no link holds is filed
    /// under the first link.
    pub fn new(
        link_id_mapping: InvertableRankSelectMap,
        here_rank_to_link_id: Vec<LinkArcs>,
        num_arcs: usize,
    ) -> (r: LinkIdMapper)
        requires
            link_id_mapping.wf(),
            here_rank_to_link_id@.len() == link_id_mapping.spec_count(),
            here_rank_to_link_id@.len() <= u32::MAX,
            num_arcs > 0 ==> here_rank_to_link_id@.len() > 0,
            forall|rank: int|
                0 <= rank < here_rank_to_link_id@.len() ==> ((
                #[trigger] here_rank_to_link_id@[rank]).0 matches Some(e) ==> e < num_arcs) && (
                here_rank_to_link_id@[rank].1 matches Some(e) ==> e < num_arcs),
        ensures
            r.wf(),
            r.spec_mapping() == link_id_mapping,
            r.spec_links() == here_rank_to_link_id@,
            r.spec_ranks().len() == num_arcs,
            forall|e: int|
                0 <= e < num_arcs ==> #[trigger] r.spec_ranks()[e] == spec_link_of(
                    here_rank_to_link_id@,
                    e,
                    here_rank_to_link_id@.len() as int,
                ),
    {
        let mut link_id_to_here_rank: Vec<EdgeId> = Vec::new();
        let mut i: usize = 0;
        while i < num_arcs
            invariant
                i <= num_arcs,
                link_id_to_here_rank@.len() == i,
                forall|e: int| 0 <= e < i ==> #[trigger] link_id_to_here_rank@[e] == 0,
            decreases num_arcs - i,
        {
            link_id_to_here_rank.push(0);
            i += 1;
        }
        let n = here_rank_to_link_id.len();
        let mut rank: usize = 0;
        while rank < n
            invariant
                rank <= n,
                n == here_rank_to_link_id@.len(),
                n <= u32::MAX,
                num_arcs > 0 ==> n > 0,
                link_id_to_here_rank@.len() == num_arcs,
                forall|r: int|
                    0 <= r < here_rank_to_link_id@.len() ==> ((
                    #[trigger] here_rank_to_link_id@[r]).0 matches Some(e) ==> e < num_arcs) && (
                    here_rank_to_link_id@[r].1 matches Some(e) ==> e < num_arcs),
                forall|e: int|
                    0 <= e < num_arcs ==> #[trigger] link_id_to_here_rank@[e] == spec_link_of(
                        here_rank_to_link_id@,
                        e,
                        rank as int,
                    ),
                forall|e: int| 0 <= e < num_arcs ==> (#[trigger] link_id_to_here_rank@[e]) < n,
            decreases n - rank,
        {
            let (from_ref, to_ref) = here_rank_to_link_id[rank];
            if let Some(link_id) = from_ref {
                link_id_to_here_rank[link_id as usize] = rank as EdgeId;
            }
            if let Some(link_id) = to_ref {
                link_id_to_here_rank[link_id as usize] = rank as EdgeId;
            }
            rank += 1;
        }
        LinkIdMapper { link_id_mapping, here_rank_to_link_id, link_id_to_here_rank }
    }

    /// The arc of the link with the identifier `here_edge_id` in the given
    /// direction; nothing where the identifier is not known or the link has
    /// no arc in that direction.
    pub fn here_to_local_edge_id(&self, here_edge_id: u64, direction: LinkDirection) -> (r: Option<
        EdgeId,
    >)
        requires
            self.wf(),
        ensures
            r == (if here_edge_id < self.spec_mapping().bits().len()
                && self.spec_mapping().bits()[here_edge_id as int] {
                let arcs = self.spec_links()[crate::datastr::rank_select_map::spec_rank(
                    self.spec_mapping().bits(),
                    here_edge_id as int,
                ) as int];
                match direction {
                    LinkDirection::FromRef => arcs.0,
                    LinkDirection::ToRef => arcs.1,
                }
            } else {
                None
            }),
    {
        let len = self.link_id_mapping.len();
        if here_edge_id >= len as u64 {
            return None;
        }
        let position = here_edge_id as usize;
        assert(position == here_edge_id);
        match self.link_id_mapping.get(position) {
            None => None,
            Some(rank) => match direction {
                LinkDirection::FromRef => self.here_rank_to_link_id[rank].0,
                LinkDirection::ToRef => self.here_rank_to_link_id[rank].1,
            },
        }
    }

    /// The identifier of the link of arc `edge_id`.
    pub fn local_to_here_edge_id(&self, edge_id: u64) -> (r: u64)
        requires
            self.wf(),
            edge_id < self.spec_ranks().len(),
        ensures
            r < self.spec_mapping().bits().len(),
            self.spec_mapping().bits()[r as int],
            crate::datastr::rank_select_map::spec_rank(self.spec_mapping().bits(), r as int)
                == self.spec_ranks()[edge_id as int],
    {
        let len = self.link_id_to_here_rank.len();
        assert(edge_id < len);
        let arc = edge_id as usize;
        assert(arc == edge_id);
        self.link_id_mapping.inverse(self.link_id_to_here_rank[arc] as usize) as u64
    }
}

} // verus!

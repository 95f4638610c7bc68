//! Answers queries on a time-dependent graph by a plain search.
use vstd::prelude::*;
use crate::graph::td_graph::Graph as TDGraph;
use crate::shortest_path::search_state::spec_tree_path;
use crate::shortest_path::stepped_dijkstra::QueryProgress;
use crate::shortest_path::td_stepped_dijkstra::{
    lemma_answer_unrestricted, spec_answer, TDSteppedDijkstra,
};
use crate::types::{NodeId, TDQuery, Timestamp, Weight, INFINITY};

verus! {

/// A server that answers earliest arrival queries.
pub struct Server {
    dijkstra: TDSteppedDijkstra,
}

impl Server {
    /// The search that the server runs.
    pub closed spec fn spec_dijkstra(&self) -> TDSteppedDijkstra {
        self.dijkstra
    }

    /// The graph that the server answers for.
    pub open spec fn spec_graph(&self) -> TDGraph {
        self.spec_dijkstra().spec_graph()
    }

    /// Representation invariant.
    pub open spec fn wf(&self) -> bool {
        self.spec_dijkstra().wf()
    }

    /// Whether a query has been answered.
    pub open spec fn answered(&self) -> bool {
        self.spec_dijkstra().ready() && self.spec_dijkstra().spec_result().is_some()
    }

    /// A server for `graph`.
    pub fn new(graph: TDGraph) -> (r: Server)
        requires
            graph.wf(),
        ensures
            r.wf(),
            r.spec_graph() == graph,
    {
        Server { dijkstra: TDSteppedDijkstra::new(graph) }
    }

    /// The travel time from `from` to `to` along an earliest path when
    /// leaving at `departure_time`; nothing where no path arrives before `INFINITY`.
    pub fn distance(&mut self, from: NodeId, to: NodeId, departure_time: Timestamp) -> (r: Option<
        Weight,
    >)
        requires
            old(self).wf(),
            from < old(self).spec_graph().spec_num_nodes(),
            to < old(self).spec_graph().spec_num_nodes(),
            departure_time < INFINITY,
        ensures
            final(self).wf(),
            final(self).answered(),
            final(self).spec_graph() == old(self).spec_graph(),
            final(self).spec_dijkstra().spec_query() == Some(
                TDQuery { from, to, departure: departure_time },
            ),
            final(self).spec_dijkstra().spec_result() == Some(r),
            spec_answer(final(self).spec_graph(), TDQuery { from, to, departure: departure_time }, r),
            from == to ==> r == Some(0u32),
    {
        let query = TDQuery { from, to, departure: departure_time };
        self.dijkstra.initialize_query(query);
        let ghost g = self.dijkstra.spec_graph();
        loop
            invariant
                self.dijkstra.ready(),
                self.dijkstra.spec_graph() == g,
                self.dijkstra.spec_query() == Some(query),
                g.spec_all_allowed(self.dijkstra.spec_allowed()),
                g == old(self).spec_graph(),
                query == (TDQuery { from, to, departure: departure_time }),
            decreases
                    g.spec_num_nodes() - self.dijkstra.spec_num_settled() + if self.dijkstra.spec_result().is_none() {
                        1int
                    } else {
                        0int
                    },
        {
            let ghost before = self.dijkstra;
            proof {
                self.dijkstra.lemma_num_settled();
            }
            match self.dijkstra.next_step() {
                QueryProgress::Progress(_) => {
                    proof {
                        before.lemma_num_settled();
                        self.dijkstra.lemma_num_settled();
                    }
                    continue ;
                },
                QueryProgress::Done(result) => {
                    proof {
                        self.dijkstra.lemma_ready();
                        lemma_answer_unrestricted(g, self.dijkstra.spec_allowed(), query, result);
                        if from == to {
                            g.lemma_wf();
                            g.lemma_reaches_start(from as int, departure_time as int);
                            if let Some(d) = result {
                                g.lemma_reaches(
                                    from as int,
                                    departure_time as int,
                                    to as int,
                                    departure_time + d,
                                );
                            }
                        }
                    }
                    return result;
                },
            }
        }
    }

    /// Whether the last search reached `node`.
    pub fn is_in_searchspace(&self, node: NodeId) -> (b: bool)
        requires
            self.wf(),
            node < self.spec_graph().spec_num_nodes(),
        ensures
            b == (self.spec_dijkstra().spec_state().dist[node as int] < INFINITY),
    {
        self.dijkstra.tentative_distance(node) < INFINITY
    }

    /// The nodes of the earliest path that the last search found, from
    /// the start to the target.
    pub fn path(&self) -> (r: Vec<NodeId>)
        requires
            self.answered(),
            self.spec_dijkstra().spec_result().unwrap().is_some(),
        ensures
            spec_tree_path(
                self.spec_graph(),
                self.spec_dijkstra().spec_state(),
                self.spec_dijkstra().spec_query().unwrap().from as int,
                self.spec_dijkstra().spec_query().unwrap().to as int,
                r@,
            ),
    {
        self.dijkstra.path()
    }
}

} // verus!

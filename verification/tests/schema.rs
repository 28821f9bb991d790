use okq::cli::{BacklinksArgs, DirectionArg, NeighborsArgs};
use okq::commands::graph::{backlinks, neighbors, GraphListOutput};
use okq::model::Bundle;
use okq::view::Corpus;

fn shape(out: &GraphListOutput) -> (usize, usize) {
    (out.count, out.results.len())
}

#[test]
fn neighbors_and_backlinks_share_a_schema() {
    let c = Corpus::new(Bundle::new(Vec::new()).unwrap(), Vec::new());
    let n: Result<GraphListOutput, _> = neighbors(
        &c,
        &NeighborsArgs { concept: "x".to_string(), depth: 1, direction: DirectionArg::In, edge: Vec::new() },
    );
    let b: Result<GraphListOutput, _> = backlinks(&c, &BacklinksArgs { concept: "x".to_string(), edge: Vec::new() });
    assert_eq!(n.err().unwrap().exit_code(), b.err().unwrap().exit_code());
    let empty = GraphListOutput { schema: "okq.neighbors/v1".to_string(), concept: "x".to_string(), count: 0, results: Vec::new() };
    assert_eq!(shape(&empty), (0, 0));
}

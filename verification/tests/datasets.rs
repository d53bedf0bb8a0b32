use diamond_types::datasets::{filename_for, linear_testing_data_filename, testing_data_filename};

#[test]
fn dataset_paths() {
    assert_eq!(filename_for(".", "S1"), "./datasets/S1.dt");
    assert_eq!(
        filename_for("/Users/leon/code/egwalker-paper", "git-makefile"),
        "/Users/leon/code/egwalker-paper/datasets/git-makefile.dt"
    );
    assert_eq!(filename_for("", ""), "/datasets/.dt");
    assert_eq!(testing_data_filename("automerge-paper"), "benchmark_data/automerge-paper.json.gz");
    assert_eq!(
        linear_testing_data_filename("seph-blog1"),
        "../../editing-traces/sequential_traces/seph-blog1.json.gz"
    );
}

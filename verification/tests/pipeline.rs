use onebrc::{Chunker, Error, Row, StatsTable};

fn run_pipeline(stream: &[u8], read_size: usize, workers: usize) -> Vec<Row> {
    // The pipeline without threads: the chunk reader cuts the stream
    // into record-aligned blocks, the blocks are dealt round-robin to
    // worker-private tables, and the tables are merged and rendered.
    let mut chunker = Chunker::new(1 << 20);
    let mut blocks: Vec<Vec<u8>> = Vec::new();
    let mut off = 0usize;
    while off < stream.len() {
        let end = (off + read_size).min(stream.len());
        if let Some(block) = chunker.push(&stream[off..end]).unwrap() {
            blocks.push(block);
        }
        off = end;
    }
    if let Some(block) = chunker.finish() {
        blocks.push(block);
    }
    let mut tables: Vec<StatsTable> = (0..workers).map(|_| StatsTable::new()).collect();
    for (i, block) in blocks.iter().enumerate() {
        tables[i % workers].process_block(block).unwrap();
    }
    let mut merged = StatsTable::new();
    for t in &tables {
        merged.merge_from(t);
    }
    merged.rows()
}

fn line(r: &Row) -> String {
    String::from_utf8(r.line()).unwrap()
}

#[test]
fn three_records_sorted_output() {
    let rows = run_pipeline(b"Ranst;-13.7\nRanst;2.7\nLonghua;-5.3\n", 1024, 1);
    assert_eq!(rows.len(), 2);
    assert_eq!(line(&rows[0]), "Longhua;-5.3;-5.3;-5.3");
    assert_eq!(line(&rows[1]), "Ranst;-13.7;-5.5;2.7");
}

#[test]
fn worker_count_does_not_change_result() {
    let stream = b"paris;12.3\noslo;-3.1\nparis;8.0\nlima;22.2\noslo;0.4\nlima;18.9\nparis;-2.7\n";
    let reference = run_pipeline(stream, 7, 1);
    for workers in [2usize, 3, 5] {
        for read_size in [1usize, 4, 13, 64] {
            let rows = run_pipeline(stream, read_size, workers);
            assert_eq!(rows.len(), reference.len());
            for (a, b) in rows.iter().zip(reference.iter()) {
                assert_eq!(line(a), line(b));
            }
        }
    }
}

#[test]
fn rows_are_sorted_by_key_bytes() {
    let rows = run_pipeline(b"b;1.0\nA;2.0\na;3.0\nB;4.0\nAb;5.0\n", 16, 2);
    let keys: Vec<String> = rows
        .iter()
        .map(|r| String::from_utf8(r.key.clone()).unwrap())
        .collect();
    assert_eq!(keys, vec!["A", "Ab", "B", "a", "b"]);
}

#[test]
fn malformed_record_aborts_the_run() {
    let mut t = StatsTable::new();
    assert_eq!(t.process_block(b"ok;1.0\nbroken\n"), Err(Error::MalformedRecord));
    // The table is untouched by the rejected block.
    assert_eq!(t.num_keys(), 0);
}

#[test]
fn mean_of_merged_key_is_rounded_per_spec() {
    // 10.0, 10.0, 10.1: mean 10.0333... rounds to 10.0.
    let rows = run_pipeline(b"k;10.0\nk;10.0\nk;10.1\n", 8, 2);
    assert_eq!(rows.len(), 1);
    assert_eq!(line(&rows[0]), "k;10.0;10.0;10.1");
}

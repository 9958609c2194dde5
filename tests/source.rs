use fasta_ingest::source::{compression_for, Compression};

#[test]
fn gz_suffix_selects_gzip() {
    assert_eq!(compression_for("reads.fa.gz"), Compression::Gzip);
    assert_eq!(compression_for(".gz"), Compression::Gzip);
}

#[test]
fn snappy_suffix_selects_snappy() {
    assert_eq!(compression_for("reads.fa.snappy"), Compression::Snappy);
    assert_eq!(compression_for("snappy"), Compression::Snappy);
}

#[test]
fn other_names_are_plain() {
    assert_eq!(compression_for("reads.fasta"), Compression::Plain);
    assert_eq!(compression_for(""), Compression::Plain);
    assert_eq!(compression_for("gz"), Compression::Plain);
    assert_eq!(compression_for("reads.gz.fa"), Compression::Plain);
    assert_eq!(compression_for("reads.snappy.txt"), Compression::Plain);
}

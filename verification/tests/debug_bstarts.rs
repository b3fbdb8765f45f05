/// A header is followed by a table of block offsets; the version byte says how long it is.
#[test]
fn debug_c_bstarts() {
    println!("Testing bstart interpretation");
    println!("Hypothesis: Version 5 always uses 32-byte header");
}

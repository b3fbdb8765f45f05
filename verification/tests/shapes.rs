use blusc::blosc::b2nd::update_shape;

#[test]
fn shapes_round_up_to_chunks_and_blocks() {
    let r = update_shape(2, &[10, 7], &[4, 3], &[2, 2]);
    assert_eq!(r.ndim, 2);
    assert_eq!(&r.shape[..3], &[10, 7, 1]);
    assert_eq!(&r.extshape[..3], &[12, 9, 1]);
    assert_eq!(&r.extchunkshape[..3], &[4, 4, 1]);
    assert_eq!(r.nitems, 70);
    assert_eq!(r.extnitems, 108);
    assert_eq!(r.extchunknitems, 16);
    assert_eq!(r.chunknitems, 12);
    assert_eq!(r.blocknitems, 4);
    assert_eq!(&r.item_array_strides[..3], &[7, 1, 0]);
    assert_eq!(&r.item_extchunk_strides[..3], &[4, 1, 0]);
    assert_eq!(&r.item_chunk_strides[..3], &[3, 1, 0]);
    assert_eq!(&r.item_block_strides[..3], &[2, 1, 0]);
    assert_eq!(&r.block_chunk_strides[..3], &[2, 1, 0]);
    assert_eq!(&r.chunk_array_strides[..3], &[3, 1, 0]);
}

#[test]
fn an_empty_dimension_zeroes_the_strides_before_it() {
    let r = update_shape(2, &[5, 0], &[2, 2], &[1, 1]);
    assert_eq!(&r.extshape[..2], &[6, 0]);
    assert_eq!(&r.extchunkshape[..2], &[2, 2]);
    assert_eq!(r.nitems, 0);
    assert_eq!(r.extnitems, 0);
    assert_eq!(r.extchunknitems, 4);
    assert_eq!(r.chunknitems, 4);
    assert_eq!(r.blocknitems, 1);
    assert_eq!(&r.item_array_strides[..2], &[0, 1]);
    assert_eq!(&r.chunk_array_strides[..2], &[0, 1]);
}

#[test]
fn one_dimension_has_unit_stride() {
    let r = update_shape(1, &[100], &[30], &[7]);
    assert_eq!(r.extshape[0], 120);
    assert_eq!(r.extchunkshape[0], 35);
    assert_eq!(r.nitems, 100);
    assert_eq!(r.item_array_strides[0], 1);
    assert_eq!(r.item_array_strides[1], 0);
}

use vstd::prelude::*;

verus! {

/// The opening sentinel `^^^^^^^^^^-START-OF-STREAM-^^^^^^^^`, as bytes.
pub open spec fn start_marker() -> Seq<u8> {
    seq![
        94u8, 94, 94, 94, 94, 94, 94, 94, 94, 94, 45, 83, 84, 65, 82, 84, 45, 79, 70, 45,
        83, 84, 82, 69, 65, 77, 45, 94, 94, 94, 94, 94, 94, 94, 94,
    ]
}

/// The closing sentinel `@@@@@@@@@@@@@-END-OF-STREAM-@@@@@@@@@`, as bytes.
pub open spec fn end_marker() -> Seq<u8> {
    seq![
        64u8, 64, 64, 64, 64, 64, 64, 64, 64, 64, 64, 64, 64, 45, 69, 78, 68, 45, 79, 70,
        45, 83, 84, 82, 69, 65, 77, 45, 64, 64, 64, 64, 64, 64, 64, 64, 64,
    ]
}

/// The sentinel facts the occurrence lemmas lean on: their lengths, their
/// final bytes, and that the closing sentinel never holds a caret.
pub proof fn lemma_marker_facts()
    ensures
        start_marker().len() == 35,
        end_marker().len() == 37,
        start_marker()[34] == 94,
        end_marker()[36] == 64,
        forall|i: int| 0 <= i < end_marker().len() ==> end_marker()[i] != 94,
        forall|i: int| 0 <= i < start_marker().len() ==> start_marker()[i] < 128,
        forall|i: int| 0 <= i < end_marker().len() ==> end_marker()[i] < 128,
{
    assert(start_marker().len() == 35);
    assert(end_marker().len() == 37);
    assert(start_marker()[34] == 94);
    assert(end_marker()[36] == 64);
    assert(forall|i: int| 0 <= i < end_marker().len() ==> end_marker()[i] != 94);
    assert(forall|i: int| 0 <= i < start_marker().len() ==> start_marker()[i] < 128);
    assert(forall|i: int| 0 <= i < end_marker().len() ==> end_marker()[i] < 128);
}

/// The opening sentinel as a vector of bytes.
pub fn start_marker_vec() -> (v: Vec<u8>)
    ensures
        v@ == start_marker(),
{
    let mut v: Vec<u8> = Vec::new();
    v.push(94); v.push(94); v.push(94); v.push(94); v.push(94); v.push(94); v.push(94);
    v.push(94); v.push(94); v.push(94); v.push(45); v.push(83); v.push(84); v.push(65);
    v.push(82); v.push(84); v.push(45); v.push(79); v.push(70); v.push(45); v.push(83);
    v.push(84); v.push(82); v.push(69); v.push(65); v.push(77); v.push(45); v.push(94);
    v.push(94); v.push(94); v.push(94); v.push(94); v.push(94); v.push(94); v.push(94);
    proof {
        assert(v@ =~= start_marker());
    }
    v
}

/// The closing sentinel as a vector of bytes.
pub fn end_marker_vec() -> (v: Vec<u8>)
    ensures
        v@ == end_marker(),
{
    let mut v: Vec<u8> = Vec::new();
    v.push(64); v.push(64); v.push(64); v.push(64); v.push(64); v.push(64); v.push(64);
    v.push(64); v.push(64); v.push(64); v.push(64); v.push(64); v.push(64); v.push(45);
    v.push(69); v.push(78); v.push(68); v.push(45); v.push(79); v.push(70); v.push(45);
    v.push(83); v.push(84); v.push(82); v.push(69); v.push(65); v.push(77); v.push(45);
    v.push(64); v.push(64); v.push(64); v.push(64); v.push(64); v.push(64); v.push(64);
    v.push(64); v.push(64);
    proof {
        assert(v@ =~= end_marker());
    }
    v
}

} // verus!

use vstd::prelude::*;

verus! {

/// `n` rounded up to a multiple of eight.
pub open spec fn round_up_to_eight(n: int) -> int {
    (n + 7) / 8 * 8
}

/// Where chunk `i` starts: after the header of eight bytes per chunk and the
/// padded chunks before it.
pub open spec fn chunk_offset(data: Seq<Vec<u8>>, i: int) -> int
    decreases i,
{
    if i <= 0 {
        8 * data.len() as int
    } else {
        chunk_offset(data, i - 1) + round_up_to_eight(data[i - 1]@.len() as int)
    }
}

/// The four bytes of `x`, least significant first.
pub open spec fn le_bytes(x: u32) -> Seq<u8> {
    seq![
        (x % 256) as u8,
        ((x / 256) % 256) as u8,
        ((x / 65536) % 256) as u8,
        ((x / 16777216) % 256) as u8,
    ]
}

/// Header entry of chunk `i`: its offset, then its length, each as four bytes.
pub open spec fn header_entry(data: Seq<Vec<u8>>, i: int) -> Seq<u8> {
    le_bytes(chunk_offset(data, i) as u32) + le_bytes(data[i]@.len() as u32)
}

fn push_le_bytes(out: &mut Vec<u8>, x: u32)
    ensures
        final(out)@ == old(out)@ + le_bytes(x),
{
    out.push((x % 256) as u8);
    out.push(((x / 256) % 256) as u8);
    out.push(((x / 65536) % 256) as u8);
    out.push(((x / 16777216) % 256) as u8);
    proof {
        assert(final(out)@ =~= old(out)@ + le_bytes(x));
    }
}

proof fn lemma_chunk_offset_grows(data: Seq<Vec<u8>>, a: int, b: int)
    requires
        0 <= a <= b,
    ensures
        chunk_offset(data, a) <= chunk_offset(data, b),
        chunk_offset(data, a) >= 8 * data.len(),
    decreases b - a,
{
    if a < b {
        lemma_chunk_offset_grows(data, a, b - 1);
        let n = data[b - 1]@.len() as int;
        assert(round_up_to_eight(n) >= n) by {
            assert((n + 7) / 8 * 8 >= n) by (nonlinear_arith)
                requires
                    n >= 0,
            ;
        }
    } else {
        lemma_chunk_offset_base(data, a);
    }
}

proof fn lemma_chunk_offset_step(data: Seq<Vec<u8>>, a: int)
    requires
        0 <= a < data.len(),
    ensures
        chunk_offset(data, a) + data[a]@.len() <= chunk_offset(data, a + 1),
{
    let n = data[a]@.len() as int;
    assert((n + 7) / 8 * 8 >= n) by (nonlinear_arith)
        requires
            n >= 0,
    ;
}

proof fn lemma_chunk_offset_base(data: Seq<Vec<u8>>, a: int)
    requires
        0 <= a,
    ensures
        chunk_offset(data, a) >= 8 * data.len(),
    decreases a,
{
    if a > 0 {
        lemma_chunk_offset_base(data, a - 1);
        let n = data[a - 1]@.len() as int;
        assert((n + 7) / 8 * 8 >= 0) by (nonlinear_arith)
            requires
                n >= 0,
        ;
    }
}

/// A chunk followed by zeros up to a multiple of eight bytes.
fn padded_chunk(chunk: &Vec<u8>) -> (r: Vec<u8>)
    requires
        chunk@.len() + 7 <= usize::MAX,
    ensures
        r@.len() == round_up_to_eight(chunk@.len() as int),
        forall|p: int| 0 <= p < chunk@.len() ==> #[trigger] r@[p] == chunk@[p],
        forall|p: int| chunk@.len() <= p < r@.len() ==> #[trigger] r@[p] == 0,
{
    let len = chunk.len();
    proof {
        assert((len + 7) / 8 * 8 >= len) by (nonlinear_arith);
    }
    let padded = (len + 7) / 8 * 8;
    let mut r: Vec<u8> = Vec::new();
    let mut k: usize = 0;
    while k < padded
        invariant
            len == chunk@.len(),
            padded == round_up_to_eight(len as int),
            padded >= len,
            0 <= k <= padded,
            r@.len() == k,
            forall|p: int| 0 <= p < k && p < len ==> #[trigger] r@[p] == chunk@[p],
            forall|p: int| len <= p < k ==> #[trigger] r@[p] == 0,
        decreases padded - k,
    {
        if k < len {
            r.push(chunk[k]);
        } else {
            r.push(0);
        }
        k = k + 1;
    }
    r
}

/// Packs chunks of bytes into one buffer: first, for each chunk, its offset
/// and its length as 32-bit little-endian integers; then the chunks, each
/// padded with zeros to a multiple of eight bytes, so that every chunk starts
/// eight-byte aligned.
#[verifier::rlimit(60)]
pub fn encode_bin(data_list: &Vec<Vec<u8>>) -> (r: Vec<u8>)
    requires
        chunk_offset(data_list@, data_list@.len() as int) <= u32::MAX,
    ensures
        r@.len() == chunk_offset(data_list@, data_list@.len() as int),
        forall|i: int|
            0 <= i < data_list@.len() ==> r@.subrange(8 * i, 8 * i + 8) == #[trigger] header_entry(
                data_list@,
                i,
            ),
        forall|i: int|
            0 <= i < data_list@.len() ==> r@.subrange(
                chunk_offset(data_list@, i),
                chunk_offset(data_list@, i) + data_list@[i]@.len(),
            ) == (#[trigger] data_list@[i])@,
        forall|i: int, b: int|
            #![trigger r@[b], chunk_offset(data_list@, i)]
            0 <= i < data_list@.len() && chunk_offset(data_list@, i) + data_list@[i]@.len() <= b
                < chunk_offset(data_list@, i + 1) ==> r@[b] == 0,
{
    let ghost data = data_list@;
    let n = data_list.len();
    proof {
        lemma_chunk_offset_grows(data, 0, n as int);
    }
    let mut out: Vec<u8> = Vec::new();
    let mut offset: usize = 8 * n;
    let mut i: usize = 0;
    while i < n
        invariant
            n == data.len(),
            data == data_list@,
            chunk_offset(data, n as int) <= u32::MAX,
            0 <= i <= n,
            offset == chunk_offset(data, i as int),
            out@.len() == 8 * i,
            forall|a: int| 0 <= a < i ==> out@.subrange(8 * a, 8 * a + 8) == #[trigger] header_entry(data, a),
        decreases n - i,
    {
        proof {
            lemma_chunk_offset_grows(data, i + 1, n as int);
        }
        let ghost before = out@;
        let len = data_list[i].len();
        push_le_bytes(&mut out, offset as u32);
        push_le_bytes(&mut out, len as u32);
        proof {
            assert(out@.subrange(8 * i, 8 * i + 8) =~= header_entry(data, i as int));
            assert forall|a: int| 0 <= a < i + 1 implies out@.subrange(8 * a, 8 * a + 8) == #[trigger] header_entry(data, a) by {
                if a < i {
                    assert(out@.subrange(8 * a, 8 * a + 8) =~= before.subrange(8 * a, 8 * a + 8));
                }
            }
        }
        offset = offset + (len + 7) / 8 * 8;
        i = i + 1;
    }
    let ghost header = out@;
    let mut c: usize = 0;
    while c < n
        invariant
            n == data.len(),
            data == data_list@,
            chunk_offset(data, n as int) <= u32::MAX,
            0 <= c <= n,
            header.len() == 8 * n,
            out@.len() == chunk_offset(data, c as int),
            forall|p: int| 0 <= p < 8 * n ==> #[trigger] out@[p] == header[p],
            forall|a: int, p: int|
                #![trigger out@[p], chunk_offset(data, a)]
                0 <= a < c && chunk_offset(data, a) <= p < chunk_offset(data, a) + data[a]@.len()
                    ==> out@[p] == data[a]@[p - chunk_offset(data, a)],
            forall|a: int, p: int|
                #![trigger out@[p], chunk_offset(data, a)]
                0 <= a < c && chunk_offset(data, a) + data[a]@.len() <= p < chunk_offset(data, a + 1)
                    ==> out@[p] == 0,
        decreases n - c,
    {
        proof {
            lemma_chunk_offset_grows(data, c + 1, n as int);
            lemma_chunk_offset_grows(data, 0, c as int);
        }
        let ghost start = out@.len() as int;
        let ghost before = out@;
        let mut piece = padded_chunk(&data_list[c]);
        let ghost pc = piece@;
        out.append(&mut piece);
        proof {
            assert(out@ == before + pc);
            assert forall|p: int| 0 <= p < start implies #[trigger] out@[p] == before[p] by {}
            assert forall|p: int| start <= p < out@.len() implies #[trigger] out@[p] == pc[p - start] by {}
            assert forall|p: int| 0 <= p < 8 * n implies #[trigger] out@[p] == header[p] by {
                assert(out@[p] == before[p]);
            }
        }
        proof {
            assert(chunk_offset(data, c + 1) == chunk_offset(data, c as int) + round_up_to_eight(
                data[c as int]@.len() as int,
            ));
            assert(out@.len() == chunk_offset(data, c + 1));
            assert forall|a: int, p: int|
                #![trigger out@[p], chunk_offset(data, a)]
                0 <= a < c + 1 && chunk_offset(data, a) <= p < chunk_offset(data, a) + data[a]@.len()
                    implies out@[p] == data[a]@[p - chunk_offset(data, a)] by {
                lemma_chunk_offset_step(data, a);
                lemma_chunk_offset_base(data, a);
                if a < c {
                    lemma_chunk_offset_grows(data, a + 1, c as int);
                    assert(out@[p] == before[p]);
                } else {
                    assert(out@[p] == pc[p - start]);
                }
            }
            assert forall|a: int, p: int|
                #![trigger out@[p], chunk_offset(data, a)]
                0 <= a < c + 1 && chunk_offset(data, a) + data[a]@.len() <= p < chunk_offset(data, a + 1)
                    implies out@[p] == 0 by {
                lemma_chunk_offset_step(data, a);
                lemma_chunk_offset_base(data, a);
                if a < c {
                    lemma_chunk_offset_grows(data, a + 1, c as int);
                    assert(out@[p] == before[p]);
                } else {
                    assert(out@[p] == pc[p - start]);
                }
            }
        }
        c = c + 1;
    }
    proof {
        assert forall|i: int|
            0 <= i < n implies out@.subrange(8 * i, 8 * i + 8) == #[trigger] header_entry(data, i) by {
            assert(header.subrange(8 * i, 8 * i + 8) == header_entry(data, i));
            assert(out@.subrange(8 * i, 8 * i + 8) =~= header.subrange(8 * i, 8 * i + 8));
        }
        assert forall|i: int|
            0 <= i < n implies out@.subrange(
                chunk_offset(data, i),
                chunk_offset(data, i) + data[i]@.len(),
            ) == (#[trigger] data[i])@ by {
            lemma_chunk_offset_grows(data, i + 1, n as int);
            lemma_chunk_offset_grows(data, i, i + 1);
            assert forall|p: int| 0 <= p < data[i]@.len() implies out@.subrange(
                chunk_offset(data, i),
                chunk_offset(data, i) + data[i]@.len(),
            )[p] == data[i]@[p] by {
                assert(out@[chunk_offset(data, i) + p] == data[i]@[chunk_offset(data, i) + p - chunk_offset(data, i)]);
            }
            assert(out@.subrange(chunk_offset(data, i), chunk_offset(data, i) + data[i]@.len()) =~= data[i]@);
        }
    }
    out
}

} // verus!

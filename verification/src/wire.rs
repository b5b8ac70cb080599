//! The byte stream the simulation server broadcasts: one 13-byte record per
//! entity, a type byte before each field's data, and the cut of a frame into
//! messages of bounded size.
use vstd::prelude::*;
use crate::config::same_text;

verus! {

broadcast use Seq::group_seq_flatten;

/// The kinds of entity in the simulation.
#[derive(PartialEq, Eq, Structural, Debug, Clone, Copy, Hash)]
pub enum EntityType {
    Particle,
    Ant,
    Food,
    Nest,
}

/// The byte that stands for an entity kind on the wire.
pub open spec fn type_code(t: EntityType) -> u8 {
    match t {
        EntityType::Particle => 0,
        EntityType::Ant => 1,
        EntityType::Food => 2,
        EntityType::Nest => 3,
    }
}

impl EntityType {
    /// The byte that stands for this kind on the wire.
    pub fn code(&self) -> (r: u8)
        ensures
            r == type_code(*self),
    {
        match self {
            EntityType::Particle => 0,
            EntityType::Ant => 1,
            EntityType::Food => 2,
            EntityType::Nest => 3,
        }
    }
}

/// What happens to an entity at the edge of the world.
#[derive(PartialEq, Eq, Structural, Debug, Clone, Copy)]
pub enum BoundaryMode {
    Wrap,
    Bounce,
    Kill,
}

/// The four bytes of `x`, least significant first.
pub open spec fn le_bytes(x: u32) -> Seq<u8> {
    seq![
        (x % 0x100) as u8,
        ((x / 0x100) % 0x100) as u8,
        ((x / 0x10000) % 0x100) as u8,
        (x / 0x1000000) as u8,
    ]
}

/// Appends the four bytes of `x`, least significant first.
pub fn push_le_bytes(buf: &mut Vec<u8>, x: u32)
    ensures
        final(buf)@ == old(buf)@ + le_bytes(x),
{
    buf.push((x % 0x100) as u8);
    buf.push(((x / 0x100) % 0x100) as u8);
    buf.push(((x / 0x10000) % 0x100) as u8);
    buf.push((x / 0x1000000) as u8);
    assert(buf@ =~= old(buf)@ + le_bytes(x));
}

/// The record of one entity: its type byte, then its id and the bit
/// patterns of its two coordinates, each as four little-endian bytes.
pub open spec fn entity_record(kind: EntityType, id: u32, x_bits: u32, y_bits: u32) -> Seq<u8> {
    seq![type_code(kind)] + le_bytes(id) + le_bytes(x_bits) + le_bytes(y_bits)
}

/// Writes the record of one entity; `x_bits` and `y_bits` are the bit
/// patterns of its coordinates.
pub fn encode_entity(kind: EntityType, id: u32, x_bits: u32, y_bits: u32) -> (r: Vec<u8>)
    ensures
        r@ == entity_record(kind, id, x_bits, y_bits),
        r@.len() == 13,
{
    let mut buf: Vec<u8> = Vec::new();
    buf.push(kind.code());
    push_le_bytes(&mut buf, id);
    push_le_bytes(&mut buf, x_bits);
    push_le_bytes(&mut buf, y_bits);
    assert(buf@ =~= entity_record(kind, id, x_bits, y_bits));
    buf
}

/// The contents of a list of byte buffers.
pub open spec fn buffer_views(bufs: Seq<Vec<u8>>) -> Seq<Seq<u8>> {
    bufs.map_values(|b: Vec<u8>| b@)
}

/// Appends `b` to `out`.
fn append_bytes(out: &mut Vec<u8>, b: &Vec<u8>)
    ensures
        final(out)@ == old(out)@ + b@,
{
    let mut j: usize = 0;
    while j < b.len()
        invariant
            j <= b@.len(),
            out@ == old(out)@ + b@.subrange(0, j as int),
        decreases b@.len() - j,
    {
        out.push(b[j]);
        j = j + 1;
        assert(out@ =~= old(out)@ + b@.subrange(0, j as int));
    }
    assert(b@.subrange(0, b@.len() as int) =~= b@);
}

/// Joins the records of all entities, in order, into one frame.
pub fn serialize_entities(records: &Vec<Vec<u8>>) -> (r: Vec<u8>)
    ensures
        r@ == buffer_views(records@).flatten(),
{
    let mut out: Vec<u8> = Vec::new();
    let mut i: usize = 0;
    assert(buffer_views(records@).subrange(0, 0) =~= Seq::<Seq<u8>>::empty());
    while i < records.len()
        invariant
            i <= records@.len(),
            out@ == buffer_views(records@).subrange(0, i as int).flatten(),
        decreases records@.len() - i,
    {
        append_bytes(&mut out, &records[i]);
        assert(buffer_views(records@).subrange(0, i + 1) =~= buffer_views(records@).subrange(0, i as int).push(records@[i as int]@));
        i = i + 1;
    }
    assert(buffer_views(records@).subrange(0, i as int) =~= buffer_views(records@));
    out
}

/// A frame of entity records is 13 bytes per entity.
pub proof fn lemma_record_frame_length(records: Seq<Seq<u8>>)
    requires
        forall|i: int| 0 <= i < records.len() ==> #[trigger] records[i].len() == 13,
    ensures
        records.flatten().len() == 13 * records.len(),
    decreases records.len(),
{
    if records.len() > 0 {
        let init = records.drop_last();
        assert(records =~= init.push(records.last()));
        assert forall|i: int| 0 <= i < init.len() implies #[trigger] init[i].len() == 13 by {
            assert(init[i] == records[i]);
        }
        lemma_record_frame_length(init);
    }
}

/// The byte that announces a field's kind: 1 for "scalar", 2 for "vector",
/// 0 for any other.
pub open spec fn field_code(field_type: Seq<char>) -> u8 {
    if field_type == "scalar"@ {
        1
    } else if field_type == "vector"@ {
        2
    } else {
        0
    }
}

/// The byte that announces a field of the given kind.
pub fn field_type_id(field_type: &str) -> (r: u8)
    ensures
        r == field_code(field_type@),
{
    if same_text(field_type, "scalar") {
        1
    } else if same_text(field_type, "vector") {
        2
    } else {
        0
    }
}

/// The bytes of one field in a frame: its kind's byte, then its data.
pub open spec fn field_frame(field: (String, Vec<u8>)) -> Seq<u8> {
    seq![field_code(field.0@)] + field.1@
}

/// Joins the fields, in order, each as its kind's byte followed by its data.
pub fn serialize_fields(fields: &Vec<(String, Vec<u8>)>) -> (r: Vec<u8>)
    ensures
        r@ == fields@.map_values(|f: (String, Vec<u8>)| field_frame(f)).flatten(),
{
    let ghost frames = fields@.map_values(|f: (String, Vec<u8>)| field_frame(f));
    let mut out: Vec<u8> = Vec::new();
    let mut i: usize = 0;
    assert(frames.subrange(0, 0) =~= Seq::<Seq<u8>>::empty());
    while i < fields.len()
        invariant
            i <= fields@.len(),
            frames == fields@.map_values(|f: (String, Vec<u8>)| field_frame(f)),
            out@ == frames.subrange(0, i as int).flatten(),
        decreases fields@.len() - i,
    {
        let ghost before = out@;
        out.push(field_type_id(fields[i].0.as_str()));
        append_bytes(&mut out, &fields[i].1);
        assert(out@ =~= before + field_frame(fields@[i as int]));
        assert(frames.subrange(0, i + 1) =~= frames.subrange(0, i as int).push(frames[i as int]));
        i = i + 1;
    }
    assert(frames.subrange(0, i as int) =~= frames);
    out
}

/// `chunks` cut `data` into pieces of `max` bytes, the last one possibly
/// shorter and none empty.
pub open spec fn is_cut(data: Seq<u8>, chunks: Seq<Seq<u8>>, max: int) -> bool {
    &&& chunks.flatten() == data
    &&& forall|i: int| 0 <= i < chunks.len() ==> 1 <= #[trigger] chunks[i].len() <= max
    &&& forall|i: int| 0 <= i < chunks.len() - 1 ==> #[trigger] chunks[i].len() == max
}

/// Cuts a frame into messages of at most `max_chunk_size` bytes, in order;
/// joined again they give the frame back.
pub fn chunk_state(state: &[u8], max_chunk_size: usize) -> (r: Vec<Vec<u8>>)
    requires
        max_chunk_size > 0,
    ensures
        is_cut(state@, buffer_views(r@), max_chunk_size as int),
{
    let mut out: Vec<Vec<u8>> = Vec::new();
    let mut start: usize = 0;
    assert(buffer_views(out@) =~= Seq::<Seq<u8>>::empty());
    while start < state.len()
        invariant
            start <= state@.len(),
            max_chunk_size > 0,
            buffer_views(out@).flatten() == state@.subrange(0, start as int),
            forall|i: int| 0 <= i < out@.len() ==> #[trigger] out@[i]@.len() == max_chunk_size,
            out@.len() > 0 ==> start < state@.len(),
        decreases state@.len() - start,
    {
        let end: usize = if state.len() - start < max_chunk_size { state.len() } else { start + max_chunk_size };
        let mut chunk: Vec<u8> = Vec::new();
        let mut j: usize = start;
        while j < end
            invariant
                start <= j <= end <= state@.len(),
                chunk@ == state@.subrange(start as int, j as int),
            decreases end - j,
        {
            chunk.push(state[j]);
            j = j + 1;
            assert(chunk@ =~= state@.subrange(start as int, j as int));
        }
        let ghost before = out@;
        out.push(chunk);
        assert(buffer_views(out@) =~= buffer_views(before).push(state@.subrange(start as int, end as int)));
        assert(state@.subrange(0, end as int) =~= state@.subrange(0, start as int) + state@.subrange(start as int, end as int));
        if end < state.len() {
            assert forall|i: int| 0 <= i < out@.len() implies #[trigger] out@[i]@.len() == max_chunk_size by {
                if i < before.len() {
                    assert(out@[i] == before[i]);
                }
            }
        } else {
            assert(state@.subrange(0, end as int) =~= state@);
            assert(is_cut(state@, buffer_views(out@), max_chunk_size as int)) by {
                assert forall|i: int| 0 <= i < buffer_views(out@).len() implies 1 <= #[trigger] buffer_views(out@)[i].len() <= max_chunk_size by {
                    if i < before.len() {
                        assert(out@[i] == before[i]);
                    }
                }
                assert forall|i: int| 0 <= i < buffer_views(out@).len() - 1 implies #[trigger] buffer_views(out@)[i].len() == max_chunk_size by {
                    assert(out@[i] == before[i]);
                }
            }
            return out;
        }
        start = end;
    }
    assert(state@.subrange(0, start as int) =~= state@);
    assert(buffer_views(out@) =~= Seq::<Seq<u8>>::empty());
    out
}

/// The type byte tells the entity kinds apart and is their discriminant:
/// particle 0, ant 1, food 2, nest 3; it is the first byte of every record.
pub proof fn lemma_type_codes(a: EntityType, b: EntityType, id: u32, x_bits: u32, y_bits: u32)
    ensures
        type_code(a) == type_code(b) ==> a == b,
        type_code(EntityType::Particle) == 0,
        type_code(EntityType::Ant) == 1,
        type_code(EntityType::Food) == 2,
        type_code(EntityType::Nest) == 3,
        entity_record(a, id, x_bits, y_bits)[0] == type_code(a),
        entity_record(a, id, x_bits, y_bits).len() == 13,
{
}

/// The interface of a channel that carries frames to the simulation's
/// clients.
pub trait Transport {
    /// Prepares the channel.
    fn init(&mut self) -> Result<(), String>;

    /// Sends one frame.
    fn send_state(&self, state: &[u8]) -> Result<(), String>;

    /// Closes the channel.
    fn close(&mut self) -> Result<(), String>;
}

} // verus!

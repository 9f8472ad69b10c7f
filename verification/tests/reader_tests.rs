use luajit_decompiler::bytecode_reader::read_bytecode_dump;
use luajit_decompiler::bytecode_reader::read_header;
use luajit_decompiler::bytecode_reader::read_prototype;
use luajit_decompiler::bytecode_reader::read_prototype_bytecode;
use luajit_decompiler::bytecode_reader::read_prototype_const_table;
use luajit_decompiler::bytecode_reader::read_prototype_const_table_val;
use luajit_decompiler::bytecode_reader::read_prototype_global_constants;
use luajit_decompiler::bytecode_reader::read_prototype_num_constants;
use luajit_decompiler::bytecode_reader::read_prototype_up_values;
use luajit_decompiler::bytecode_reader::read_uleb128;
use luajit_decompiler::bytecode_reader::read_uleb128_33;
use luajit_decompiler::bytecode_reader::ByteCodeDump;
use luajit_decompiler::bytecode_reader::ByteCodeProto;
use luajit_decompiler::bytecode_reader::ConstTableVal;
use luajit_decompiler::bytecode_reader::GlobalConst;
use luajit_decompiler::bytecode_reader::NumConst;
use luajit_decompiler::error::DecompileError;

fn encode(mut v: u32) -> Vec<u8> {
    let mut out = Vec::new();
    loop {
        let b = (v & 0x7f) as u8;
        v >>= 7;
        if v == 0 {
            out.push(b);
            return out;
        }
        out.push(b | 0x80);
    }
}

#[test]
fn uleb128_reads_back_what_was_encoded() {
    for v in [0u32, 1, 127, 128, 300, 16383, 16384, 0x0fff_ffff, 0x1000_0000, 0xdead_beef, u32::MAX] {
        let mut bytes = encode(v);
        let used = bytes.len();
        assert!(used >= 1 && used <= 5);
        bytes.push(0xaa);
        let mut cur: &[u8] = &bytes;
        assert_eq!(read_uleb128(&mut cur), Ok(v));
        assert_eq!(cur, &[0xaa]);
    }
}

#[test]
fn uleb128_known_encodings() {
    let mut cur: &[u8] = &[0xe5, 0x8e, 0x26];
    assert_eq!(read_uleb128(&mut cur), Ok(624485));
    assert!(cur.is_empty());
    let mut cur: &[u8] = &[0xff, 0xff, 0xff, 0xff, 0x0f];
    assert_eq!(read_uleb128(&mut cur), Ok(u32::MAX));
    // bits above the 32nd are dropped
    let mut cur: &[u8] = &[0x80, 0x80, 0x80, 0x80, 0x7f];
    assert_eq!(read_uleb128(&mut cur), Ok(0xf000_0000));
}

#[test]
fn uleb128_rejects_a_sixth_byte() {
    let bytes = [0x80u8, 0x80, 0x80, 0x80, 0x80, 0x00];
    let mut cur: &[u8] = &bytes;
    assert_eq!(read_uleb128(&mut cur), Err(DecompileError::InvalidULeb128));
    assert_eq!(cur.len(), 6);
    // also where the input ends behind the fifth byte
    let mut cur: &[u8] = &bytes[..5];
    assert_eq!(read_uleb128(&mut cur), Err(DecompileError::InvalidULeb128));
}

#[test]
fn uleb128_needs_its_last_byte() {
    let mut cur: &[u8] = &[];
    assert_eq!(read_uleb128(&mut cur), Err(DecompileError::IO));
    let mut cur: &[u8] = &[0x80, 0x80];
    assert_eq!(read_uleb128(&mut cur), Err(DecompileError::IO));
    assert_eq!(cur.len(), 2);
}

#[test]
fn uleb128_33_single_byte() {
    // low bit 0: an integer, the byte shifted right by one
    let mut cur: &[u8] = &[0x54, 0xff];
    assert_eq!(read_uleb128_33(&mut cur), Ok((0x2a, 0x54)));
    assert_eq!(cur, &[0xff]);
    // low bit 1: the flag comes back with the byte
    let mut cur: &[u8] = &[0x55];
    assert_eq!(read_uleb128_33(&mut cur), Ok((0x2a, 0x55)));
    let mut cur: &[u8] = &[0x7f];
    assert_eq!(read_uleb128_33(&mut cur), Ok((0x3f, 0x7f)));
}

#[test]
fn uleb128_33_longer_numbers() {
    // first byte 0x80: continuation, six low bits zero; next group at bit 6
    let mut cur: &[u8] = &[0x80, 0x01];
    assert_eq!(read_uleb128_33(&mut cur), Ok((0x40, 0x80)));
    let mut cur: &[u8] = &[0xff, 0xff, 0xff, 0xff, 0x1f];
    assert_eq!(read_uleb128_33(&mut cur), Ok((u32::MAX, 0xff)));
    let mut cur: &[u8] = &[0x83, 0x82, 0x01];
    assert_eq!(read_uleb128_33(&mut cur), Ok((1 + (2 << 6) + (1 << 13), 0x83)));
}

#[test]
fn uleb128_33_failures() {
    let mut cur: &[u8] = &[];
    assert_eq!(read_uleb128_33(&mut cur), Err(DecompileError::IO));
    let mut cur: &[u8] = &[0x80];
    assert_eq!(read_uleb128_33(&mut cur), Err(DecompileError::IO));
    assert_eq!(cur.len(), 1);
    let mut cur: &[u8] = &[0x80, 0x80, 0x80, 0x80, 0x80, 0x00];
    assert_eq!(read_uleb128_33(&mut cur), Err(DecompileError::InvalidULeb128));
}

#[test]
fn table_values_of_every_type() {
    let mut cur: &[u8] = &[0];
    assert_eq!(read_prototype_const_table_val(&mut cur), Ok(ConstTableVal::Nil));
    let mut cur: &[u8] = &[1];
    assert_eq!(read_prototype_const_table_val(&mut cur), Ok(ConstTableVal::False));
    let mut cur: &[u8] = &[2];
    assert_eq!(read_prototype_const_table_val(&mut cur), Ok(ConstTableVal::True));
    let mut cur: &[u8] = &[3, 0x80, 0x01];
    assert_eq!(read_prototype_const_table_val(&mut cur), Ok(ConstTableVal::Int(128)));
    let mut cur: &[u8] = &[4, 7, 9];
    assert_eq!(read_prototype_const_table_val(&mut cur), Ok(ConstTableVal::Num(7, 9)));
    let mut cur: &[u8] = &[5];
    assert_eq!(read_prototype_const_table_val(&mut cur), Ok(ConstTableVal::Str(vec![])));
    let mut cur: &[u8] = &[8, b'a', 0xff, b'c', 0x11];
    assert_eq!(read_prototype_const_table_val(&mut cur), Ok(ConstTableVal::Str(vec![b'a', 0xff, b'c'])));
    assert_eq!(cur, &[0x11]);
    let mut cur: &[u8] = &[8, b'a'];
    assert_eq!(read_prototype_const_table_val(&mut cur), Err(DecompileError::IO));
    assert_eq!(cur.len(), 2);
}

#[test]
fn const_table_is_added_to_the_pool() {
    let mut proto = ByteCodeProto::new();
    // two array values, one pair
    let bytes = [2u8, 1, 0, 3, 5, 6, b'k', 2];
    let mut cur: &[u8] = &bytes;
    assert_eq!(read_prototype_const_table(&mut cur, &mut proto), Ok(()));
    assert!(cur.is_empty());
    assert_eq!(proto.global_consts().len(), 1);
    match &proto.global_consts()[0] {
        GlobalConst::Table(table) => {
            assert_eq!(table.array().clone(), vec![ConstTableVal::Nil, ConstTableVal::Int(5)]);
            assert_eq!(
                table.hash().clone(),
                vec![(ConstTableVal::Str(vec![b'k']), ConstTableVal::True)]
            );
        }
        other => panic!("unexpected constant {:?}", other),
    }
}

fn minimal_prototype() -> Vec<u8> {
    // flags, params, frame size, upvalues; sizes of the pools; one instruction
    vec![0, 0, 2, 0, 0, 0, 1, 0x4b, 0x00, 0x01, 0x00]
}

#[test]
fn minimal_prototype_with_one_return() {
    let bytes = minimal_prototype();
    let mut cur: &[u8] = &bytes;
    let mut proto = ByteCodeProto::new();
    assert_eq!(read_prototype(&mut cur, &mut proto), Ok(()));
    assert!(cur.is_empty());
    assert_eq!(proto.frame_size(), 2);
    assert_eq!(proto.bc_raw().clone(), vec![0x0001_004b]);
    let graph = proto.basic_block_graph_ref();
    assert_eq!(graph.node_count(), 1);
    assert_eq!(graph.node_weight(0).unwrap().len(), 1);
    assert_eq!(graph.edge_count(), 0);
}

#[test]
fn prototype_with_everything() {
    let mut bytes = vec![3u8, 1, 4, 2];
    bytes.extend([6, 3, 2]); // pool sizes: 6 global constants, 3 numbers, 2 instructions
    bytes.extend([0x12, 0x01, 0x02, 0x00]); // MOV 1 2
    bytes.extend([0x4b, 0x00, 0x01, 0x00]); // RET0
    bytes.extend([0x34, 0x12, 0xcd, 0xab]); // upvalues 0x1234, 0xabcd
    bytes.extend([0]); // child
    bytes.extend([1, 0, 0]); // empty table
    bytes.extend([2, 1, 2]); // i64
    bytes.extend([3, 3, 4]); // u64
    bytes.extend([4, 5, 6, 7, 8]); // complex
    bytes.extend([0]); // child
    bytes.extend([0x54]); // integer 42
    bytes.extend([0x55, 9]); // number (42, 9)
    bytes.extend([0x80, 0x01]); // integer 64
    bytes.extend([0xde, 0xad]); // debug information, not looked at
    let mut cur: &[u8] = &bytes;
    let mut proto = ByteCodeProto::new();
    assert_eq!(read_prototype(&mut cur, &mut proto), Ok(()));
    assert_eq!(cur, &[0xde, 0xad]);
    assert_eq!(proto.flags(), 3);
    assert_eq!(proto.num_params(), 1);
    assert_eq!(proto.frame_size(), 4);
    assert_eq!(proto.bc_raw().clone(), vec![0x0002_0112, 0x0001_004b]);
    assert_eq!(proto.up_values().clone(), vec![0x1234, 0xabcd]);
    let consts = proto.global_consts();
    assert_eq!(consts.len(), 6);
    assert_eq!(consts[0], GlobalConst::ProtoChild(0));
    assert!(matches!(consts[1], GlobalConst::Table(_)));
    assert_eq!(consts[2], GlobalConst::I64(1, 2));
    assert_eq!(consts[3], GlobalConst::U64(3, 4));
    assert_eq!(consts[4], GlobalConst::Complex(5, 6, 7, 8));
    assert_eq!(consts[5], GlobalConst::ProtoChild(1));
    assert_eq!(
        proto.num_consts().clone(),
        vec![NumConst::Int(42), NumConst::Num(42, 9), NumConst::Int(64)]
    );
}

#[test]
fn failed_prototype_leaves_everything_as_it_was() {
    let mut bytes = minimal_prototype();
    bytes.pop();
    let mut cur: &[u8] = &bytes;
    let mut proto = ByteCodeProto::new();
    assert_eq!(read_prototype(&mut cur, &mut proto), Err(DecompileError::IO));
    assert_eq!(cur.len(), bytes.len());
    assert_eq!(proto.bc_raw().len(), 0);
    // an instruction that is no instruction
    let bytes = vec![0, 0, 2, 0, 0, 0, 1, 0x61, 0x00, 0x01, 0x00];
    let mut cur: &[u8] = &bytes;
    assert_eq!(read_prototype(&mut cur, &mut proto), Err(DecompileError::UnknownInsOpcode));
    // a string constant that is cut short
    let bytes = vec![0, 0, 2, 0, 1, 0, 1, 0x4b, 0x00, 0x01, 0x00, 9, b'a'];
    let mut cur: &[u8] = &bytes;
    assert_eq!(read_prototype(&mut cur, &mut proto), Err(DecompileError::IO));
}

#[test]
fn sections_of_a_prototype_one_by_one() {
    let head = [0u8, 0, 1, 2, 2, 1, 1];
    let mut proto = ByteCodeProto::new();
    let mut whole = head.to_vec();
    whole.extend([0x4b, 0, 1, 0]);
    whole.extend([1, 0, 2, 0]);
    whole.extend([7, b'h', b'i']);
    whole.extend([0]);
    whole.extend([0x02]);
    let mut all: &[u8] = &whole;
    assert_eq!(read_prototype(&mut all, &mut proto), Ok(()));
    assert_eq!(proto.up_values().clone(), vec![1, 2]);
    assert_eq!(proto.global_consts()[0], GlobalConst::Str(vec![b'h', b'i']));
    assert_eq!(proto.global_consts()[1], GlobalConst::ProtoChild(0));
    assert_eq!(proto.num_consts().clone(), vec![NumConst::Int(1)]);
    // reading the sections again appends to the pools and replaces the arrays
    let mut cur2: &[u8] = &[0x58, 0x00, 0xff, 0x7f];
    assert_eq!(read_prototype_bytecode(&mut cur2, &mut proto), Ok(()));
    assert_eq!(proto.bc_raw().clone(), vec![0x7fff_0058]);
    let mut cur3: &[u8] = &[9, 0, 8, 0];
    assert_eq!(read_prototype_up_values(&mut cur3, &mut proto), Ok(()));
    assert_eq!(proto.up_values().clone(), vec![9, 8]);
    let mut cur4: &[u8] = &[0, 5];
    assert_eq!(read_prototype_global_constants(&mut cur4, &mut proto), Ok(()));
    assert_eq!(proto.global_consts().len(), 4);
    assert_eq!(proto.global_consts()[2], GlobalConst::ProtoChild(0));
    assert_eq!(proto.global_consts()[3], GlobalConst::Str(vec![]));
    let mut cur5: &[u8] = &[0x03, 0x01];
    assert_eq!(read_prototype_num_constants(&mut cur5, &mut proto), Ok(()));
    assert_eq!(proto.num_consts().clone(), vec![NumConst::Int(1), NumConst::Num(1, 1)]);
}

#[test]
fn header_only_stripped_dump() {
    let bytes = [0x1bu8, 0x4c, 0x4a, 0x02, 0x02, 0x00];
    let mut cur: &[u8] = &bytes;
    let dump = read_bytecode_dump(&mut cur).unwrap();
    assert!(cur.is_empty());
    assert_eq!(dump.magic(), [0x1b, 0x4c, 0x4a]);
    assert_eq!(dump.version(), 2);
    assert_eq!(dump.flags(), 2);
    assert_eq!(dump.name().clone(), Vec::<u8>::new());
    assert_eq!(dump.prototypes().len(), 0);
}

#[test]
fn header_with_a_chunk_name() {
    let bytes = [0x1bu8, 0x4c, 0x4a, 0x02, 0x08, 3, b'@', b'a', b'b', 0xff];
    let mut cur: &[u8] = &bytes;
    let mut dump = ByteCodeDump::new();
    assert_eq!(read_header(&mut cur, &mut dump), Ok(()));
    assert_eq!(cur, &[0xff]);
    assert_eq!(dump.flags(), 8);
    assert_eq!(dump.name().clone(), vec![b'@', b'a', b'b']);
}

#[test]
fn header_faults() {
    let mut dump = ByteCodeDump::new();
    let mut cur: &[u8] = &[0x1b, 0x4c, 0x4a];
    assert_eq!(read_header(&mut cur, &mut dump), Err(DecompileError::IO));
    let mut cur: &[u8] = &[0x1b, 0x4c, 0x4b, 0x02, 0x02];
    assert_eq!(
        read_header(&mut cur, &mut dump),
        Err(DecompileError::InvalidHeaderBytes("Invalid byte code file magic."))
    );
    let mut cur: &[u8] = &[0x1b, 0x4c, 0x4a, 0x01, 0x02];
    assert_eq!(
        read_header(&mut cur, &mut dump),
        Err(DecompileError::InvalidHeaderBytes("Invalid byte code version."))
    );
    for flags in [0x01u8, 0x04, 0x06, 0x10, 0x12, 0x0f, 0x7f] {
        let bytes = [0x1b, 0x4c, 0x4a, 0x02, flags, 0, 0];
        let mut cur: &[u8] = &bytes;
        assert_eq!(
            read_header(&mut cur, &mut dump),
            Err(DecompileError::InvalidHeaderBytes("Invalid header flags."))
        );
        assert_eq!(cur.len(), 7);
    }
    for flags in [0x00u8, 0x02, 0x08, 0x0a] {
        let bytes = [0x1b, 0x4c, 0x4a, 0x02, flags, 0, 0];
        let mut cur: &[u8] = &bytes;
        assert_eq!(read_header(&mut cur, &mut dump), Ok(()));
        assert_eq!(dump.flags(), flags as u32);
        assert_eq!(dump.magic(), [0x1b, 0x4c, 0x4a]);
        assert_eq!(dump.version(), 2);
    }
    assert_eq!(dump.prototypes().len(), 0);
}

fn dump_of(records: &[Vec<u8>]) -> Vec<u8> {
    let mut bytes = vec![0x1bu8, 0x4c, 0x4a, 0x02, 0x02];
    for r in records {
        bytes.extend(encode(r.len() as u32));
        bytes.extend(r);
    }
    bytes.push(0);
    bytes
}

#[test]
fn dump_with_child_and_parent() {
    let child = minimal_prototype();
    // the parent names one child in its pool
    let mut parent = vec![0u8, 0, 2, 0, 1, 0, 1, 0x4b, 0x00, 0x01, 0x00];
    parent.push(0);
    let bytes = dump_of(&[child, parent]);
    let mut cur: &[u8] = &bytes;
    let dump = read_bytecode_dump(&mut cur).unwrap();
    assert!(cur.is_empty());
    assert_eq!(dump.prototypes().len(), 2);
    assert_eq!(dump.prototypes()[1].global_consts()[0], GlobalConst::ProtoChild(0));
    assert_eq!(dump.prototypes()[0].basic_block_graph_ref().node_count(), 1);
}

#[test]
fn dump_faults() {
    // a child that no prototype stands for
    let mut orphan = vec![0u8, 0, 2, 0, 1, 0, 1, 0x4b, 0x00, 0x01, 0x00];
    orphan.push(0);
    let bytes = dump_of(&[orphan]);
    let mut cur: &[u8] = &bytes;
    assert_eq!(read_bytecode_dump(&mut cur).err(), Some(DecompileError::IO));
    assert_eq!(cur.len(), bytes.len());
    // no record of length zero at the end
    let mut bytes = dump_of(&[minimal_prototype()]);
    bytes.pop();
    let mut cur: &[u8] = &bytes;
    assert_eq!(read_bytecode_dump(&mut cur).err(), Some(DecompileError::IO));
    // a record that is shorter than it says
    let mut bytes = dump_of(&[minimal_prototype()]);
    bytes.truncate(10);
    let mut cur: &[u8] = &bytes;
    assert_eq!(read_bytecode_dump(&mut cur).err(), Some(DecompileError::IO));
    // a record whose prototype is at fault
    let bytes = dump_of(&[vec![0, 0, 2, 0, 0, 0, 1, 0x58, 0x00, 0x00, 0x90]]);
    let mut cur: &[u8] = &bytes;
    assert_eq!(read_bytecode_dump(&mut cur).err(), Some(DecompileError::InvalidJumpTarget));
    // a wrong header
    let mut cur: &[u8] = &[0x1b, 0x4c, 0x4a, 0x03, 0x02, 0x00];
    assert_eq!(
        read_bytecode_dump(&mut cur).err(),
        Some(DecompileError::InvalidHeaderBytes("Invalid byte code version."))
    );
}

#[test]
fn the_rest_of_the_input_stays_behind_the_dump() {
    let mut bytes = dump_of(&[minimal_prototype()]);
    bytes.extend([1, 2, 3]);
    let mut cur: &[u8] = &bytes;
    let dump = read_bytecode_dump(&mut cur).unwrap();
    assert_eq!(dump.prototypes().len(), 1);
    assert_eq!(cur, &[1, 2, 3]);
}

#[test]
fn faulty_prototypes_can_be_skipped() {
    let good = minimal_prototype();
    let bad = vec![0u8, 0, 2, 0, 0, 0, 1, 0x61, 0x00, 0x01, 0x00];
    let mut orphan = minimal_prototype();
    orphan[4] = 1;
    orphan.push(0);
    let mut parent = minimal_prototype();
    parent[4] = 1;
    parent.push(0);
    let bytes = dump_of(&[orphan, bad.clone(), good.clone(), bad, parent]);
    let mut cur: &[u8] = &bytes;
    assert_eq!(
        luajit_decompiler::bytecode_reader::read_bytecode_dump_with(&mut cur, false).err(),
        Some(DecompileError::IO)
    );
    let mut cur: &[u8] = &bytes;
    let dump = luajit_decompiler::bytecode_reader::read_bytecode_dump_with(&mut cur, true).unwrap();
    assert!(cur.is_empty());
    assert_eq!(dump.prototypes().len(), 2);
    assert_eq!(dump.prototypes()[0].global_consts().len(), 0);
    assert_eq!(dump.prototypes()[1].global_consts()[0], GlobalConst::ProtoChild(0));
    // a frame that is cut short is a fault of the dump, skipping or not
    let mut short = dump_of(&[good]);
    short.truncate(9);
    let mut cur: &[u8] = &short;
    assert_eq!(
        luajit_decompiler::bytecode_reader::read_bytecode_dump_with(&mut cur, true).err(),
        Some(DecompileError::IO)
    );
}

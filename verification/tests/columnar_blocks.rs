//! Columnar blocks and the wire format of records.

use lol_crawler::columnar::{decode_block, BlockFault, NMISC, VERSION};
use lol_crawler::columnar_encode::encode_block;
use lol_crawler::columnar::EncodeError;
use lol_crawler::record::{
    KillEvent, MatchRecord, MinuteFrame, ObjectiveEvent, Participant, TimelineLite, WardEvent,
};
use lol_crawler::wire::{read_varint_at, unzigzag_i64, write_varint, zigzag_i64, VarintFault};

const MAGIC: &[u8] = b"LCOL";

fn encode_records(records: &[MatchRecord]) -> Vec<Vec<u8>> {
    records.iter().map(|r| r.encode_to_vec()).collect()
}

fn assert_block_roundtrip(records: &[Vec<u8>]) {
    let payload = encode_block(records).unwrap();
    let decoded = decode_block(&payload).unwrap();
    assert_eq!(decoded, records);
}

fn plain_record() -> MatchRecord {
    MatchRecord {
        schema_version: 1,
        game_id: 100,
        platform: String::new(),
        queue_id: 0,
        game_start_ms: 1_000,
        duration_s: 0,
        blue_won: false,
        game_version: String::new(),
        patch_major: 0,
        patch_minor: 0,
        participants: vec![
            Participant::default(),
            Participant {
                player_id: 7,
                champion_id: 266,
                position: 1,
                spell1: 4,
                spell2: 12,
                runes: Vec::new(),
                stats: Vec::new(),
            },
        ],
        timeline: None,
        bans: Vec::new(),
    }
}

fn rich_timeline() -> TimelineLite {
    TimelineLite {
        frames: vec![
            MinuteFrame {
                minute: 0,
                total_gold: vec![500],
                xp: Vec::new(),
                cs: vec![3, 2],
                dmg_to_champs: vec![0],
            },
            MinuteFrame {
                minute: 2,
                total_gold: vec![450, 600],
                xp: vec![12],
                cs: Vec::new(),
                dmg_to_champs: vec![5, 1, 9],
            },
        ],
        kills: vec![
            KillEvent { t_s: 10, killer: 1, victim: 0, assist_mask: 3, x: 100, y: 200 },
            KillEvent { t_s: 8, killer: 0, victim: 1, assist_mask: 0, x: 50, y: 75 },
        ],
        objectives: vec![
            ObjectiveEvent { t_s: 20, kind: 7, killer: 255, losing_team: 200, lane: 2 },
            ObjectiveEvent { t_s: 15, kind: 1, killer: 1, losing_team: 0, lane: 0 },
        ],
        wards: vec![
            WardEvent { t_s: 3, kind: 1, participant: 0 },
            WardEvent { t_s: 1, kind: 2, participant: 1 },
        ],
    }
}

#[test]
fn edge_cases_roundtrip() {
    assert_block_roundtrip(&[]);

    let mut none_timeline = plain_record();
    let mut present_empty_timeline = none_timeline.clone();
    present_empty_timeline.timeline = Some(TimelineLite::default());
    assert_ne!(none_timeline.encode_to_vec(), present_empty_timeline.encode_to_vec());

    let mut rich = none_timeline.clone();
    rich.game_id = 90;
    rich.game_start_ms = 900;
    rich.blue_won = true;
    rich.participants[0].runes = vec![8005, 9111, 9104];
    rich.participants[0].stats = vec![-5, 0, 17];
    rich.participants[1].runes = vec![8112];
    rich.participants[1].stats = vec![9];
    rich.timeline = Some(rich_timeline());

    none_timeline.game_id = 110;
    let records = encode_records(&[none_timeline, present_empty_timeline, rich.clone(), rich]);
    assert_block_roundtrip(&records[..1]);
    assert_block_roundtrip(&records);
}

#[test]
fn malformed_payloads_error() {
    assert!(decode_block(&[]).is_err());
    assert!(decode_block(b"LCOL").is_err());

    let empty = encode_block(&[]).unwrap();
    assert!(decode_block(&empty[..empty.len() - 1]).is_err());

    let one = encode_block(&[MatchRecord::default().encode_to_vec()]).unwrap();
    assert!(decode_block(&one[..one.len() - 1]).is_err());

    let mut huge_len = Vec::new();
    huge_len.extend_from_slice(MAGIC);
    huge_len.push(VERSION);
    write_varint(&mut huge_len, 0);
    write_varint(&mut huge_len, 0);
    write_varint(&mut huge_len, 0);
    write_varint(&mut huge_len, u64::MAX);
    for _ in 1..NMISC {
        write_varint(&mut huge_len, 0);
    }
    assert!(decode_block(&huge_len).is_err());

    let mut huge_columns = Vec::new();
    huge_columns.extend_from_slice(MAGIC);
    huge_columns.push(VERSION);
    write_varint(&mut huge_columns, 0);
    write_varint(&mut huge_columns, u64::MAX);
    write_varint(&mut huge_columns, 0);
    assert!(decode_block(&huge_columns).is_err());
}

#[test]
fn encode_self_check_rejects_unknown_fields() {
    let mut raw = MatchRecord::default().encode_to_vec();
    write_varint(&mut raw, 99 << 3);
    write_varint(&mut raw, 1);
    assert!(encode_block(&[raw]).is_err());
}

#[test]
fn unknown_field_mismatch_says_where() {
    let mut raw = plain_record().encode_to_vec();
    let len = raw.len();
    write_varint(&mut raw, 99 << 3);
    write_varint(&mut raw, 1);
    let total = raw.len();
    let err = encode_block(&[plain_record().encode_to_vec(), raw]).unwrap_err();
    assert_eq!(
        err,
        EncodeError::Mismatch { record: 1, input: total, decoded: len, first_diff: len }
    );
    assert!(err.message().contains("record 1"));
}

#[test]
fn records_that_cannot_be_read_are_refused() {
    let err = encode_block(&[vec![0xff]]).unwrap_err();
    assert_eq!(err, EncodeError::Undecodable { record: 0 });
    assert_eq!(err.message(), "decode input record 0");
}

#[test]
fn far_game_ids_are_refused() {
    let mut a = plain_record();
    a.game_id = 0;
    let mut b = plain_record();
    b.game_id = u64::MAX;
    let err = encode_block(&encode_records(&[a, b])).unwrap_err();
    assert_eq!(err, EncodeError::GameIdDelta { record: 1 });
}

#[test]
fn far_start_times_are_refused() {
    let mut a = plain_record();
    a.game_start_ms = i64::MIN;
    let mut b = plain_record();
    b.game_start_ms = i64::MAX;
    let err = encode_block(&encode_records(&[a, b])).unwrap_err();
    assert_eq!(err, EncodeError::StartDelta { record: 1 });
}

#[test]
fn block_faults_are_told_apart() {
    assert_eq!(decode_block(&[]).unwrap_err().fault, BlockFault::TruncatedHeader);
    assert_eq!(decode_block(b"LCOX\x01").unwrap_err().fault, BlockFault::BadMagic);
    assert_eq!(decode_block(b"LCOL\x02").unwrap_err().fault, BlockFault::UnsupportedVersion);
    let mut trailing = encode_block(&[]).unwrap();
    trailing.push(0);
    assert_eq!(decode_block(&trailing).unwrap_err().fault, BlockFault::TrailingData);
}

#[test]
fn an_empty_block_is_header_and_lengths() {
    let payload = encode_block(&[]).unwrap();
    let mut want = Vec::new();
    want.extend_from_slice(MAGIC);
    want.push(VERSION);
    want.extend_from_slice(&[0, 0, 0]);
    want.extend_from_slice(&[0u8; NMISC]);
    assert_eq!(payload, want);
}

// ---- records against an independent writer of the wire format ----

fn field(out: &mut Vec<u8>, tag: u32, value: u64) {
    if value != 0 {
        prost::encoding::encode_key(tag, prost::encoding::WireType::Varint, out);
        prost::encoding::encode_varint(value, out);
    }
}

fn body(out: &mut Vec<u8>, tag: u32, bytes: &[u8]) {
    prost::encoding::encode_key(tag, prost::encoding::WireType::LengthDelimited, out);
    prost::encoding::encode_varint(bytes.len() as u64, out);
    out.extend_from_slice(bytes);
}

fn participant_bytes(p: &Participant) -> Vec<u8> {
    let mut out = Vec::new();
    field(&mut out, 1, p.player_id as u64);
    field(&mut out, 2, p.champion_id as u64);
    field(&mut out, 3, p.position as u64);
    field(&mut out, 4, p.spell1 as u64);
    field(&mut out, 5, p.spell2 as u64);
    prost::encoding::uint32::encode_packed(6, &p.runes, &mut out);
    prost::encoding::sint64::encode_packed(7, &p.stats, &mut out);
    out
}

fn frame_bytes(f: &MinuteFrame) -> Vec<u8> {
    let mut out = Vec::new();
    field(&mut out, 1, f.minute as u64);
    prost::encoding::uint32::encode_packed(2, &f.total_gold, &mut out);
    prost::encoding::uint32::encode_packed(3, &f.xp, &mut out);
    prost::encoding::uint32::encode_packed(4, &f.cs, &mut out);
    prost::encoding::uint32::encode_packed(5, &f.dmg_to_champs, &mut out);
    out
}

fn numbers(values: &[u32]) -> Vec<u8> {
    let mut out = Vec::new();
    for (i, v) in values.iter().enumerate() {
        field(&mut out, i as u32 + 1, *v as u64);
    }
    out
}

fn timeline_bytes(t: &TimelineLite) -> Vec<u8> {
    let mut out = Vec::new();
    for f in &t.frames {
        body(&mut out, 1, &frame_bytes(f));
    }
    for k in &t.kills {
        body(&mut out, 2, &numbers(&[k.t_s, k.killer, k.victim, k.assist_mask, k.x, k.y]));
    }
    for o in &t.objectives {
        body(&mut out, 3, &numbers(&[o.t_s, o.kind, o.killer, o.losing_team, o.lane]));
    }
    for w in &t.wards {
        body(&mut out, 4, &numbers(&[w.t_s, w.kind, w.participant]));
    }
    out
}

fn record_bytes(r: &MatchRecord) -> Vec<u8> {
    let mut out = Vec::new();
    field(&mut out, 1, r.schema_version as u64);
    field(&mut out, 2, r.game_id);
    if !r.platform.is_empty() {
        body(&mut out, 3, r.platform.as_bytes());
    }
    field(&mut out, 4, r.queue_id as u64);
    field(&mut out, 5, r.game_start_ms as u64);
    field(&mut out, 6, r.duration_s as u64);
    field(&mut out, 7, r.blue_won as u64);
    if !r.game_version.is_empty() {
        body(&mut out, 8, r.game_version.as_bytes());
    }
    field(&mut out, 9, r.patch_major as u64);
    field(&mut out, 10, r.patch_minor as u64);
    for p in &r.participants {
        body(&mut out, 11, &participant_bytes(p));
    }
    if let Some(t) = &r.timeline {
        body(&mut out, 12, &timeline_bytes(t));
    }
    prost::encoding::uint32::encode_packed(13, &r.bans, &mut out);
    out
}

fn full_record() -> MatchRecord {
    let mut r = plain_record();
    r.game_id = 7_819_712_430;
    r.platform = "EUW1".to_string();
    r.queue_id = 420;
    r.game_start_ms = -5;
    r.duration_s = 2130;
    r.blue_won = true;
    r.game_version = "16.7.1.2345".to_string();
    r.patch_major = 16;
    r.patch_minor = 7;
    r.participants[0].runes = vec![8005, 9111, 0, u32::MAX];
    r.participants[0].stats = vec![-5, 0, 17, i64::MIN, i64::MAX];
    r.timeline = Some(rich_timeline());
    r.bans = vec![1, 2, 300, u32::MAX];
    r
}

#[test]
fn records_are_written_in_the_wire_format() {
    for r in [MatchRecord::default(), plain_record(), full_record()] {
        let bytes = r.encode_to_vec();
        assert_eq!(bytes, record_bytes(&r));
        assert_eq!(MatchRecord::decode(&bytes), Some(r));
    }
}

#[test]
fn records_read_back_in_any_field_order() {
    let mut bytes = Vec::new();
    field(&mut bytes, 10, 7);
    field(&mut bytes, 2, 99);
    field(&mut bytes, 2, 100);
    body(&mut bytes, 3, b"KR");
    field(&mut bytes, 77, 5);
    let r = MatchRecord::decode(&bytes).unwrap();
    assert_eq!(r.patch_minor, 7);
    assert_eq!(r.game_id, 100);
    assert_eq!(r.platform, "KR");
}

#[test]
fn records_with_a_text_that_is_not_utf8_are_refused() {
    let mut bytes = Vec::new();
    body(&mut bytes, 3, &[0xff, 0xfe]);
    assert_eq!(MatchRecord::decode(&bytes), None);
}

#[test]
fn varints_read_back() {
    for v in [0u64, 1, 127, 128, 300, u32::MAX as u64, u64::MAX] {
        let mut out = Vec::new();
        write_varint(&mut out, v);
        let mut want = Vec::new();
        prost::encoding::encode_varint(v, &mut want);
        assert_eq!(out, want);
        assert_eq!(read_varint_at(&out, 0), Ok((v, out.len())));
    }
    assert_eq!(read_varint_at(&[0x80], 0), Err(VarintFault::Truncated));
    assert_eq!(read_varint_at(&[0xff; 10], 0), Err(VarintFault::Overflow));
}

#[test]
fn zigzag_reads_back() {
    for v in [0i64, -1, 1, -2, i64::MIN, i64::MAX] {
        assert_eq!(unzigzag_i64(zigzag_i64(v)), v);
    }
    assert_eq!(zigzag_i64(-1), 1);
    assert_eq!(zigzag_i64(1), 2);
}

#[test]
fn full_records_make_the_round_trip_as_columns() {
    let mut later = full_record();
    later.game_id += 3;
    later.game_start_ms += 7;
    let records = encode_records(&[full_record(), plain_record(), later, full_record()]);
    assert_block_roundtrip(&records);
}

#[test]
fn payloads_are_whole_or_refused() {
    let payload = encode_block(&encode_records(&[full_record()])).unwrap();
    assert!(decode_block(&payload).is_ok());
    for k in 0..payload.len() {
        assert!(decode_block(&payload[..k]).is_err(), "{k}");
    }
    let mut longer = payload.clone();
    longer.push(0);
    assert_eq!(decode_block(&longer).unwrap_err().fault, BlockFault::TrailingData);
}

use chrono::{NaiveDate, NaiveDateTime, TimeDelta};
use live_index::{
    generation, latest_from_chunks, moment, neighbor_volumes, parse_chunk_keys, parse_volumes,
    spread_ring, stamp_is_live, Chunk,
};
use std::collections::HashSet;

fn at(time: NaiveDateTime) -> i128 {
    let utc = time.and_utc();
    moment(utc.timestamp(), utc.timestamp_subsec_nanos())
}

fn stamp(day: u32, hour: u32) -> i128 {
    at(NaiveDate::from_ymd_opt(2026, 9, day)
        .unwrap()
        .and_hms_opt(hour, 0, 0)
        .unwrap())
}

fn id(volume: usize, day: u32, hour: u32, sequence: usize) -> Chunk {
    let name = format!("202609{day:02}-{hour:02}0000-{sequence:03}-I");
    Chunk::from_name("KJAX", volume, &name).unwrap()
}

fn sequences(ids: &[Chunk]) -> Vec<usize> {
    ids.iter().map(|c| c.sequence).collect()
}

/// The previous join search: occupied-directory order, times increase
/// until one wrap. Leftover directories in the middle break it.
async fn ring_search<F, V, E>(
    count: usize,
    mut probe: impl FnMut(usize) -> F,
) -> std::result::Result<Option<usize>, E>
where
    F: std::future::Future<Output = std::result::Result<V, E>>,
    V: PartialOrd,
{
    if count == 0 {
        return Ok(None);
    }
    let first = probe(0).await?;
    let mut low = 0;
    let mut high = count;
    while low < high {
        let mid = low + (high - low) / 2;
        let value = probe(mid).await?;
        if value >= first {
            low = mid + 1;
        } else {
            high = mid;
        }
    }
    Ok(Some(low - 1))
}

#[test]
fn mixed_volume_selects_only_its_newest_generation() {
    let mixed = vec![id(130, 9, 5, 1), id(130, 12, 17, 2), id(130, 12, 17, 1)];
    let selected = generation(mixed.clone(), |_| true).unwrap();
    assert_eq!(selected.0, stamp(12, 17));
    assert_eq!(sequences(&selected.1), vec![1, 2]);
    let cutoff = stamp(12, 17);
    let backfill = generation(mixed, |time| time < cutoff).unwrap();
    assert_eq!(backfill.0, stamp(9, 5));
    assert_eq!(backfill.1.len(), 1);
}

#[test]
fn leftover_directories_inside_the_cycle_lose_to_the_newest_stamp() {
    let chunks = vec![
        id(1, 1, 5, 1),
        id(2, 12, 17, 1),
        id(2, 12, 17, 2),
        id(3, 2, 8, 1),
        id(4, 3, 8, 1),
    ];
    let stamps = [stamp(1, 5), stamp(12, 17), stamp(2, 8), stamp(3, 8)];
    tokio::runtime::Builder::new_current_thread()
        .build()
        .unwrap()
        .block_on(async {
            let found = ring_search(stamps.len(), |index| async move { Ok::<_, ()>(stamps[index]) })
                .await
                .unwrap();
            assert_eq!(found, Some(3), "the old search picks the leftover at 4");
        });
    let (volume, time, ids) = latest_from_chunks(chunks).unwrap();
    assert_eq!(volume, 2);
    assert_eq!(time, stamp(12, 17));
    assert_eq!(sequences(&ids), vec![1, 2]);
}

#[test]
fn newest_stamp_wins_on_a_sparse_ring_and_a_wrap() {
    let chunks = vec![
        id(1, 12, 1, 1),
        id(68, 12, 18, 1),
        id(69, 9, 5, 1),
        id(76, 9, 6, 1),
        id(999, 12, 0, 1),
    ];
    let (volume, time, _) = latest_from_chunks(chunks).unwrap();
    assert_eq!(volume, 68);
    assert_eq!(time, stamp(12, 18));

    let wrapped = vec![
        id(1, 12, 20, 1),
        id(2, 12, 22, 1),
        id(200, 11, 4, 1),
        id(999, 12, 16, 1),
    ];
    let (volume, time, _) = latest_from_chunks(wrapped).unwrap();
    assert_eq!(volume, 2);
    assert_eq!(time, stamp(12, 22));
}

#[test]
fn volume_listing_omits_expired_directories_and_rejects_truncation() {
    let body = r#"<ListBucketResult><Prefix>KFCX/</Prefix><IsTruncated>false</IsTruncated>
        <CommonPrefixes><Prefix>KFCX/999/</Prefix></CommonPrefixes>
        <CommonPrefixes><Prefix>KFCX/69/</Prefix></CommonPrefixes>
        <CommonPrefixes><Prefix>KFCX/0/</Prefix></CommonPrefixes>
        <CommonPrefixes><Prefix>KFCX/1/</Prefix></CommonPrefixes>
        </ListBucketResult>"#;
    assert_eq!(parse_volumes(body, "KFCX").unwrap(), vec![1, 69, 999]);
    assert!(parse_volumes(&body.replace("false", "true"), "KFCX").is_err());
}

#[test]
fn neighbors_wrap_around_the_ring() {
    let occupied: HashSet<usize> = [1, 2, 998, 999].into_iter().collect();
    let nums = neighbor_volumes(&occupied, 1, 2);
    assert!(nums.contains(&1) && nums.contains(&2));
    assert!(nums.contains(&998) && nums.contains(&999));
}

#[test]
fn spread_ring_visits_every_directory_and_leaves_the_first_wave_off_folder_one() {
    let volumes: Vec<usize> = (1..=20).collect();
    let spread = spread_ring(volumes);
    let mut seen = spread.clone();
    assert_eq!(seen.len(), 20);
    seen.sort_unstable();
    assert_eq!(seen, (1..=20).collect::<Vec<_>>());
    assert_ne!(spread[0], 1, "the first probe must not always be folder 1");
}

#[test]
fn chunk_listing_keeps_only_keys_in_the_volume() {
    let body = r#"<ListBucketResult>
        <Contents><Key>KFCX/305/20260913-111000-001-S</Key></Contents>
        <Contents><Key>KFCX/305/20260913-141335-001-S</Key></Contents>
        <Contents><Key>KFCX/305/20260913-141335-002-I</Key></Contents>
        </ListBucketResult>"#;
    let ids = parse_chunk_keys(body, "KFCX", 305).unwrap();
    assert_eq!(
        ids.iter().map(|c| c.name.as_str()).collect::<Vec<_>>(),
        vec![
            "20260913-111000-001-S",
            "20260913-141335-001-S",
            "20260913-141335-002-I"
        ]
    );
}

#[test]
fn a_stamp_from_the_last_minute_is_live() {
    let now = NaiveDate::from_ymd_opt(2026, 9, 13)
        .unwrap()
        .and_hms_opt(14, 0, 0)
        .unwrap();
    assert!(stamp_is_live(at(now), at(now)));
    assert!(stamp_is_live(at(now - TimeDelta::seconds(30)), at(now)));
    assert!(stamp_is_live(at(now - TimeDelta::seconds(90)), at(now)));
    assert!(stamp_is_live(at(now + TimeDelta::seconds(10)), at(now)));
    assert!(!stamp_is_live(at(now - TimeDelta::seconds(91)), at(now)));
    assert!(!stamp_is_live(at(now - TimeDelta::minutes(8)), at(now)));
    assert!(!stamp_is_live(at(now + TimeDelta::seconds(31)), at(now)));
}

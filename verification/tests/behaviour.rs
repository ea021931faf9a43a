use chrono::NaiveDate;
use live_index::chunk::Found;
use live_index::listing::{text_equals, volume_of_prefix};
use live_index::request::{chunks_url, chunks_url_after_stamp, decimal, split_instant, volumes_url};
use live_index::search::{found_in_volume, CLUSTER_RADIUS};
use live_index::time::{NANOS_PER_SECOND, RECENT};
use live_index::{
    gcd, generation, keep_newest, latest_from_chunks, moment, neighbor_volumes, parse_chunk_keys,
    parse_volumes, spread_ring, stamp_is_live, Chunk, LatestSearch, Probe, SearchStep, StopRule,
};
use std::collections::HashSet;

fn when(day: u32, hour: u32, minute: u32, second: u32) -> i128 {
    let utc = NaiveDate::from_ymd_opt(2026, 9, day)
        .unwrap()
        .and_hms_opt(hour, minute, second)
        .unwrap()
        .and_utc();
    moment(utc.timestamp(), utc.timestamp_subsec_nanos())
}

fn chunk(volume: usize, name: &str) -> Chunk {
    Chunk::from_name("KJAX", volume, name).unwrap()
}

fn found(stamp: i128, volume: usize) -> Found {
    (stamp, volume, vec![])
}

#[test]
fn gcd_of_small_pairs() {
    assert_eq!(gcd(12, 18), 6);
    assert_eq!(gcd(18, 12), 6);
    assert_eq!(gcd(17, 5), 1);
    assert_eq!(gcd(7, 0), 7);
    assert_eq!(gcd(0, 7), 7);
    assert_eq!(gcd(0, 0), 0);
    assert_eq!(gcd(128, 3), 1);
}

#[test]
fn spread_of_twenty_starts_one_step_in_and_wraps() {
    let spread = spread_ring((1..=20).collect());
    let mut want: Vec<usize> = (2..=20).collect();
    want.push(1);
    assert_eq!(spread, want);
}

#[test]
fn spread_skips_strides_that_share_a_factor() {
    // 128 directories: 128 / 64 = 2 shares a factor with 128, so the stride is 3.
    let volumes: Vec<usize> = (1..=128).collect();
    let spread = spread_ring(volumes.clone());
    for (i, v) in spread.iter().enumerate() {
        assert_eq!(*v, volumes[((i + 1) * 3) % 128]);
    }
    let mut seen = spread.clone();
    seen.sort_unstable();
    assert_eq!(seen, volumes);
}

#[test]
fn spread_leaves_short_lists_alone() {
    assert_eq!(spread_ring(vec![]), Vec::<usize>::new());
    assert_eq!(spread_ring(vec![7]), vec![7]);
    assert_eq!(spread_ring(vec![7, 9]), vec![9, 7]);
}

#[test]
fn spread_of_a_full_ring_is_a_permutation() {
    let volumes: Vec<usize> = (1..=999).collect();
    let spread = spread_ring(volumes.clone());
    assert_ne!(spread[0], 1);
    let mut seen = spread;
    seen.sort_unstable();
    assert_eq!(seen, volumes);
}

#[test]
fn neighbors_come_in_offset_order_across_the_wrap() {
    let occupied: HashSet<usize> = [1, 2, 998, 999, 500].into_iter().collect();
    assert_eq!(neighbor_volumes(&occupied, 1, 2), vec![998, 999, 1, 2]);
    assert_eq!(neighbor_volumes(&occupied, 999, 1), vec![998, 999, 1]);
    assert_eq!(neighbor_volumes(&occupied, 500, 0), vec![500]);
    assert_eq!(neighbor_volumes(&occupied, 300, 5), Vec::<usize>::new());
}

#[test]
fn neighbors_keep_only_occupied_directories_within_the_radius() {
    let occupied: HashSet<usize> = [450, 452, 498, 499, 501, 503, 560].into_iter().collect();
    assert_eq!(
        neighbor_volumes(&occupied, 500, CLUSTER_RADIUS),
        vec![452, 498, 499, 501, 503]
    );
}

#[test]
fn chunk_names_give_their_stamp_and_sequence() {
    let c = chunk(305, "20260913-111000-042-E");
    assert_eq!(c.stamp, when(13, 11, 10, 0));
    assert_eq!(c.sequence, 42);
    assert_eq!(c.volume, 305);
    assert_eq!(c.site, "KJAX");
    assert_eq!(c.name, "20260913-111000-042-E");
    assert!(Chunk::from_name("KJAX", 305, "not-a-chunk").is_none());
    assert!(Chunk::from_name("KJAX", 305, "20260913-111000-042-M").is_none());
    assert!(Chunk::from_name("KJAX", 0, "20260913-111000-042-E").is_none());
    assert!(Chunk::from_name("KJAX", 1000, "20260913-111000-042-E").is_none());
}

#[test]
fn generation_sorts_by_sequence_and_keeps_ties_in_order() {
    let ids = vec![
        chunk(7, "20260913-120000-003-I"),
        chunk(7, "20260913-120000-001-S"),
        chunk(7, "20260912-120000-009-I"),
        chunk(7, "20260913-120000-002-I"),
    ];
    let (stamp, selected) = generation(ids, |_| true).unwrap();
    assert_eq!(stamp, when(13, 12, 0, 0));
    assert_eq!(
        selected.iter().map(|c| c.sequence).collect::<Vec<_>>(),
        vec![1, 2, 3]
    );
}

#[test]
fn generation_is_none_when_nothing_is_admitted() {
    let ids = vec![chunk(7, "20260913-120000-001-S")];
    assert!(generation(ids, |_| false).is_none());
    assert!(generation(vec![], |_| true).is_none());
}

#[test]
fn found_in_volume_tags_the_newest_generation() {
    let ids = vec![
        chunk(9, "20260913-120000-001-S"),
        chunk(9, "20260913-130000-001-S"),
    ];
    let (stamp, volume, chunks) = found_in_volume(ids, 9).unwrap();
    assert_eq!(stamp, when(13, 13, 0, 0));
    assert_eq!(volume, 9);
    assert_eq!(chunks.len(), 1);
    assert!(found_in_volume(vec![], 9).is_none());
}

#[test]
fn latest_from_chunks_breaks_ties_by_the_earliest_chunk() {
    let ids = vec![
        chunk(4, "20260913-110000-001-S"),
        chunk(8, "20260913-120000-001-S"),
        chunk(3, "20260913-120000-002-I"),
        chunk(3, "20260913-120000-001-S"),
    ];
    let (volume, stamp, chunks) = latest_from_chunks(ids).unwrap();
    assert_eq!(volume, 8);
    assert_eq!(stamp, when(13, 12, 0, 0));
    assert_eq!(chunks.len(), 1);
    assert!(latest_from_chunks(vec![]).is_none());
}

#[test]
fn keep_newest_keeps_the_earlier_of_a_tie() {
    let mut best = None;
    keep_newest(&mut best, found(5, 1));
    assert_eq!(best.as_ref().map(|b| b.1), Some(1));
    keep_newest(&mut best, found(5, 2));
    assert_eq!(best.as_ref().map(|b| b.1), Some(1));
    keep_newest(&mut best, found(4, 3));
    assert_eq!(best.as_ref().map(|b| b.1), Some(1));
    keep_newest(&mut best, found(6, 4));
    assert_eq!(best.as_ref().map(|b| (b.0, b.1)), Some((6, 4)));
}

#[test]
fn probe_stops_at_the_first_stamp_its_rule_accepts() {
    let now = when(13, 14, 0, 0);
    let mut probe = Probe::new(StopRule::Live, now);
    assert!(!probe.record(None));
    assert!(!probe.record(Some(found(now - 5 * 60 * NANOS_PER_SECOND, 10))));
    assert!(probe.record(Some(found(now - 30 * NANOS_PER_SECOND, 11))));
    assert_eq!(probe.best.as_ref().map(|b| b.1), Some(11));

    let mut recent = Probe::new(StopRule::Recent, now);
    assert!(!recent.record(Some(found(now - RECENT - 1, 12))));
    assert!(recent.record(Some(found(now - RECENT, 13))));
}

#[test]
fn search_without_directories_is_over_at_once() {
    let (_, step) = LatestSearch::begin(vec![], when(13, 14, 0, 0));
    assert!(matches!(step, SearchStep::Done(None)));
}

#[test]
fn search_ends_on_a_live_first_wave() {
    let now = when(13, 14, 0, 0);
    let (mut search, step) = LatestSearch::begin((1..=10).collect(), now);
    match step {
        SearchStep::Probe { volumes, after, rule } => {
            assert_eq!(volumes, spread_ring((1..=10).collect()));
            assert_eq!(after, now - RECENT);
            assert!(matches!(rule, StopRule::Recent));
        }
        SearchStep::Done(_) => panic!("expected a probe wave"),
    }
    match search.after_wave(Some(found(now - 10 * NANOS_PER_SECOND, 4))) {
        SearchStep::Done(Some((volume, stamp, _))) => {
            assert_eq!(volume, 4);
            assert_eq!(stamp, now - 10 * NANOS_PER_SECOND);
        }
        _ => panic!("expected the search to end"),
    }
}

#[test]
fn search_lists_the_neighbors_of_a_recent_hit() {
    let now = when(13, 14, 0, 0);
    let volumes: Vec<usize> = vec![1, 2, 3, 100, 200, 940, 960, 999];
    let (mut search, _) = LatestSearch::begin(volumes, now);
    let old = now - 20 * 60 * NANOS_PER_SECOND;
    match search.after_wave(Some(found(old, 2))) {
        SearchStep::Probe { volumes, after, rule } => {
            assert_eq!(volumes, vec![960, 999, 1, 2, 3]);
            assert_eq!(after, now - RECENT);
            assert!(matches!(rule, StopRule::Live));
        }
        SearchStep::Done(_) => panic!("expected a neighbor wave"),
    }
    match search.after_wave(Some(found(now - 60 * NANOS_PER_SECOND, 3))) {
        SearchStep::Done(Some((volume, _, _))) => assert_eq!(volume, 3),
        _ => panic!("expected the search to end"),
    }
}

#[test]
fn search_lists_the_rest_when_nothing_recent_turned_up() {
    let now = when(13, 14, 0, 0);
    let volumes: Vec<usize> = (1..=500).collect();
    let (mut search, step) = LatestSearch::begin(volumes.clone(), now);
    let first = match step {
        SearchStep::Probe { volumes, .. } => volumes,
        SearchStep::Done(_) => panic!("expected a probe wave"),
    };
    // A sixth of 500, rounded up, is 84.
    assert_eq!(first.len(), 84);
    match search.after_wave(None) {
        SearchStep::Probe { volumes: rest, rule, .. } => {
            assert_eq!(rest.len(), 500 - 84);
            let mut all = first.clone();
            all.extend(rest);
            all.sort_unstable();
            assert_eq!(all, volumes);
            assert!(matches!(rule, StopRule::Live));
        }
        SearchStep::Done(_) => panic!("expected the rest"),
    }
    match search.after_wave(None) {
        SearchStep::Done(result) => assert!(result.is_none()),
        _ => panic!("expected the search to end"),
    }
}

#[test]
fn second_wave_keeps_the_first_hit_unless_newer() {
    let now = when(13, 14, 0, 0);
    let (mut search, _) = LatestSearch::begin(vec![1, 2, 3], now);
    let old = now - 4 * 60 * 60 * NANOS_PER_SECOND;
    assert!(matches!(search.after_wave(Some(found(old, 1))), SearchStep::Probe { .. }));
    match search.after_wave(Some(found(old - 1, 2))) {
        SearchStep::Done(Some((volume, stamp, _))) => {
            assert_eq!(volume, 1);
            assert_eq!(stamp, old);
        }
        _ => panic!("expected the search to end"),
    }
}

#[test]
fn volume_listing_errors() {
    let missing = "<ListBucketResult><CommonPrefixes><Prefix>KFCX/5/</Prefix></CommonPrefixes></ListBucketResult>";
    assert_eq!(
        parse_volumes(missing, "KFCX").unwrap_err(),
        "volume listing is truncated or missing IsTruncated"
    );
    let spaced = "<ListBucketResult><IsTruncated> false</IsTruncated></ListBucketResult>";
    assert!(parse_volumes(spaced, "KFCX").is_err());
    let broken = "<ListBucketResult><IsTruncated>false</Wrong></ListBucketResult>";
    let err = parse_volumes(broken, "KFCX").unwrap_err();
    assert!(err.starts_with("reading volume listing: "));
    assert!(err.len() > "reading volume listing: ".len());
}

#[test]
fn volume_listing_reads_numerals_as_the_parser_does() {
    let body = "<ListBucketResult><IsTruncated>false</IsTruncated>\
        <CommonPrefixes><Prefix>KFCX/+5/</Prefix></CommonPrefixes>\
        <CommonPrefixes><Prefix>KFCX/007/</Prefix></CommonPrefixes>\
        <CommonPrefixes><Prefix>KFCX/5/</Prefix></CommonPrefixes>\
        <CommonPrefixes><Prefix>KFCX/1000/</Prefix></CommonPrefixes>\
        <CommonPrefixes><Prefix>KTLX/6/</Prefix></CommonPrefixes>\
        <CommonPrefixes><Prefix>KFCX/-8/</Prefix></CommonPrefixes>\
        <CommonPrefixes><Prefix>KFCX/8</Prefix></CommonPrefixes>\
        <Prefix>KFCX/9/</Prefix>\
        </ListBucketResult>";
    assert_eq!(parse_volumes(body, "KFCX").unwrap(), vec![5, 7]);
}

#[test]
fn directory_prefixes() {
    assert_eq!(volume_of_prefix("KFCX/69/", "KFCX"), Some(69));
    assert_eq!(volume_of_prefix("KFCX/0/", "KFCX"), None);
    assert_eq!(volume_of_prefix("KFCX/", "KFCX"), None);
    assert_eq!(volume_of_prefix("KFCX//", "KFCX"), None);
    assert_eq!(volume_of_prefix("KFCX/+/", "KFCX"), None);
    assert_eq!(volume_of_prefix("KFCX/999/", "KFCX"), Some(999));
    assert_eq!(volume_of_prefix("KFCX/99999999999999999999999/", "KFCX"), None);
}

#[test]
fn chunk_listing_skips_names_that_are_not_chunks() {
    let body = "<ListBucketResult>\
        <Contents><Key>KFCX/305/20260913-141335-002-I</Key></Contents>\
        <Contents><Key>KFCX/305/not-a-chunk</Key></Contents>\
        <Contents><Key>20260913-141335-003-E</Key></Contents>\
        <Contents><Size>20260913-141335-004-I</Size></Contents>\
        </ListBucketResult>";
    let ids = parse_chunk_keys(body, "KFCX", 305).unwrap();
    assert_eq!(
        ids.iter().map(|c| c.name.as_str()).collect::<Vec<_>>(),
        vec!["20260913-141335-002-I", "20260913-141335-003-E"]
    );
    assert!(ids.iter().all(|c| c.volume == 305 && c.site == "KFCX"));
    let err = parse_chunk_keys("<a><b></a>", "KFCX", 305).unwrap_err();
    assert!(err.starts_with("reading chunk listing: "));
}

#[test]
fn listing_requests() {
    assert_eq!(
        volumes_url("KFCX"),
        "https://unidata-nexrad-level2-chunks.s3.amazonaws.com?list-type=2&prefix=KFCX/&delimiter=/&max-keys=1000"
    );
    assert_eq!(
        chunks_url("KFCX", 305, when(13, 11, 10, 0) + 250).unwrap(),
        "https://unidata-nexrad-level2-chunks.s3.amazonaws.com?list-type=2&prefix=KFCX/305/&start-after=KFCX/305/20260913-111000&max-keys=1000"
    );
    assert!(chunks_url("KFCX", 305, i128::MAX).is_none());
    assert_eq!(
        chunks_url_after_stamp("KJAX", 7, "20260101-000000"),
        "https://unidata-nexrad-level2-chunks.s3.amazonaws.com?list-type=2&prefix=KJAX/7/&start-after=KJAX/7/20260101-000000&max-keys=1000"
    );
    assert_eq!(decimal(0), "0");
    assert_eq!(decimal(305), "305");
    assert_eq!(decimal(usize::MAX), usize::MAX.to_string());
}

#[test]
fn instants_split_back_into_seconds() {
    assert_eq!(moment(12, 34), 12 * NANOS_PER_SECOND + 34);
    assert_eq!(split_instant(moment(12, 34)), Some((12, 34)));
    assert_eq!(split_instant(moment(-3, 5)), Some((-3, 5)));
    assert_eq!(split_instant(-1), Some((-1, 999_999_999)));
    assert_eq!(split_instant(i128::MIN), None);
}

#[test]
fn live_test_at_the_edges_of_the_instant_range() {
    assert!(!stamp_is_live(i128::MAX, i128::MIN));
    assert!(!stamp_is_live(i128::MIN, i128::MAX));
    assert!(stamp_is_live(i128::MAX, i128::MAX));
    assert!(stamp_is_live(i128::MIN, i128::MIN));
}

#[test]
fn text_comparison() {
    assert!(text_equals("false", "false"));
    assert!(!text_equals("false", "False"));
    assert!(!text_equals("false", "fals"));
    assert!(text_equals("", ""));
}

#[test]
fn directory_prefixes_read_back_as_their_volume() {
    for volume in 1..=999 {
        let prefix = format!("KFCX/{}/", decimal(volume));
        assert_eq!(volume_of_prefix(&prefix, "KFCX"), Some(volume));
    }
}

#[test]
fn a_leap_second_chunk_sorts_between_its_neighbours() {
    let before = Chunk::from_name("KJAX", 5, "20261231-235959-001-S").unwrap();
    let leap = Chunk::from_name("KJAX", 5, "20261231-235960-001-S").unwrap();
    let after = Chunk::from_name("KJAX", 5, "20270101-000000-001-S").unwrap();
    assert!(before.stamp < leap.stamp);
    assert!(leap.stamp < after.stamp);
    assert_eq!(leap.stamp, after.stamp - 1);
    let (stamp, chunks) = generation(vec![after.clone(), leap.clone()], |_| true).unwrap();
    assert_eq!(stamp, after.stamp);
    assert_eq!(chunks.len(), 1);
}

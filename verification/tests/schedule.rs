use minecraft_player::algebra::Matrix;
use minecraft_player::audio::Pitch;
use minecraft_player::schedule::{schedule, top_entries};

fn rank(amplitude: f32) -> u64 {
    // Activations are never below zero, and among such values the bit patterns are
    // ordered as the values are.
    amplitude.to_bits() as u64
}

fn palette(len: usize) -> Vec<(String, Pitch)> {
    (0..len).map(|i| (format!("sound.{}", i), Pitch { num: 1 + i, den: 2 })).collect()
}

#[test]
fn top_entries_are_the_highest_first() {
    assert_eq!(top_entries(&vec![5, 9, 1, 7, 3], 3), vec![1, 3, 0]);
    assert_eq!(top_entries(&vec![5, 9, 1, 7, 3], 5), vec![1, 3, 0, 4, 2]);
    assert_eq!(top_entries(&vec![5, 9, 1, 7, 3], 1), vec![1]);
}

#[test]
fn top_entries_of_equal_rank_keep_palette_order() {
    assert_eq!(top_entries(&vec![4, 4, 4, 4], 2), vec![0, 1]);
    assert_eq!(top_entries(&vec![1, 7, 7, 0, 7, 1], 4), vec![1, 2, 4, 0]);
    assert_eq!(top_entries(&vec![0, 0, 3, 0], 3), vec![2, 0, 1]);
}

#[test]
fn top_entries_are_no_more_than_there_are() {
    assert_eq!(top_entries(&vec![2, 8], 64), vec![1, 0]);
    assert_eq!(top_entries(&Vec::new(), 64), Vec::<usize>::new());
    assert_eq!(top_entries(&vec![2, 8], 0), Vec::<usize>::new());
}

#[test]
fn schedule_names_the_strongest_entries_of_every_tick() {
    // 3 palette entries, 2 ticks.
    let h = Matrix::from_shape_vec(3, 2, vec![0.1f32, 0.0, 0.9, 0.5, 0.4, 0.5]).unwrap();
    let records = schedule(&h, &palette(3), 2, &rank);
    assert_eq!(records.len(), 2);

    assert_eq!(records[0].tick, 0);
    assert!(records[0].stop_first);
    let first: Vec<(usize, &str, Pitch, f32)> =
        records[0].entries.iter().map(|c| (c.entry, c.identifier.as_str(), c.pitch, c.amplitude)).collect();
    assert_eq!(
        first,
        vec![(1, "sound.1", Pitch { num: 2, den: 2 }, 0.9), (2, "sound.2", Pitch { num: 3, den: 2 }, 0.4)]
    );

    assert_eq!(records[1].tick, 1);
    let second: Vec<(usize, f32)> = records[1].entries.iter().map(|c| (c.entry, c.amplitude)).collect();
    // Entries 1 and 2 are equally strong: the earlier palette entry comes first.
    assert_eq!(second, vec![(1, 0.5), (2, 0.5)]);
}

#[test]
fn schedule_keeps_silent_entries_when_they_rank() {
    let h = Matrix::from_shape_vec(3, 1, vec![0.0f32, 0.25, 0.0]).unwrap();
    let records = schedule(&h, &palette(3), 64, &rank);
    let all: Vec<(usize, f32)> = records[0].entries.iter().map(|c| (c.entry, c.amplitude)).collect();
    assert_eq!(all, vec![(1, 0.25), (0, 0.0), (2, 0.0)]);
}

#[test]
fn schedule_of_a_hundred_entries_names_sixty_four_per_tick() {
    let (r, n) = (100usize, 3usize);
    let mut state: u32 = 2024;
    let data: Vec<f32> = (0..r * n)
        .map(|_| {
            state = state.wrapping_mul(1664525).wrapping_add(1013904223);
            ((state >> 8) as f32 + 1.0) / 16777217.0
        })
        .collect();
    let h = Matrix::from_shape_vec(r, n, data).unwrap();
    let records = schedule(&h, &palette(r), 64, &rank);
    assert_eq!(records.len(), 3);
    for (tick, record) in records.iter().enumerate() {
        assert_eq!(record.tick, tick);
        assert_eq!(record.entries.len(), 64);
        for pair in record.entries.windows(2) {
            assert!(pair[0].amplitude >= pair[1].amplitude);
        }
        for cue in &record.entries {
            assert_eq!(cue.amplitude, h.get(cue.entry, tick).unwrap());
            assert_eq!(cue.identifier, format!("sound.{}", cue.entry));
        }
        let weakest = record.entries.last().unwrap().amplitude;
        let named: Vec<usize> = record.entries.iter().map(|c| c.entry).collect();
        for entry in 0..r {
            if !named.contains(&entry) {
                assert!(h.get(entry, tick).unwrap() <= weakest);
            }
        }
    }
}

#[test]
fn schedule_without_ticks_or_entries_is_empty() {
    let no_ticks = Matrix::from_shape_vec(3, 0, Vec::<f32>::new()).unwrap();
    assert!(schedule(&no_ticks, &palette(3), 64, &rank).is_empty());
    let no_entries = Matrix::from_shape_vec(0, 2, Vec::<f32>::new()).unwrap();
    let records = schedule(&no_entries, &palette(0), 64, &rank);
    assert_eq!(records.len(), 2);
    assert!(records.iter().all(|r| r.entries.is_empty() && r.stop_first));
}

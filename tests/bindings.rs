use std::sync::Arc;
use subtitle_embed::frame::Frame;
use subtitle_embed::render::{init_render_data, Conflict, RenderData};
use subtitle_embed::subtitle::{parse_subtitle_name, Subtitle, SubtitleType};

fn bitmap(tag: u8) -> Arc<Frame> {
    Arc::new(Frame { width: 1, height: 1, linesize: 3, data: vec![tag, tag, tag], pts: None })
}

fn sub(subtitle_type: SubtitleType, id: u64, begin_flap: u64, end_flap: u64) -> Subtitle {
    Subtitle { subtitle_type, id, begin_flap, end_flap, data: bitmap(id as u8) }
}

fn ids(table: &[RenderData]) -> Vec<(Option<usize>, Option<usize>)> {
    table
        .iter()
        .map(|r| (r.major.as_ref().map(|w| w.id), r.minor.as_ref().map(|w| w.id)))
        .collect()
}

#[test]
fn table_has_one_entry_per_frame_with_margins() {
    let mut table = Vec::new();
    let conflicts = init_render_data(&mut table, &Vec::new(), 4, 11, 22);
    assert!(conflicts.is_empty());
    assert_eq!(table.len(), 4);
    for (i, r) in table.iter().enumerate() {
        assert_eq!(r.flap, i);
        assert_eq!(r.top_offset, 11);
        assert_eq!(r.bottom_offset, 22);
        assert!(r.major.is_none() && r.minor.is_none());
    }
}

#[test]
fn frames_outside_every_range_stay_empty() {
    let subs = vec![sub(SubtitleType::Major, 1, 2, 3), sub(SubtitleType::Minor, 2, 6, 7)];
    let mut table = Vec::new();
    init_render_data(&mut table, &subs, 9, 0, 0);
    let got = ids(&table);
    for f in [0usize, 3, 4, 7, 8] {
        assert_eq!(got[f], (None, None));
    }
    assert_eq!(got[1], (Some(1), None));
    assert_eq!(got[2], (Some(1), None));
    assert_eq!(got[5], (None, Some(2)));
    assert_eq!(got[6], (None, Some(2)));
}

#[test]
fn later_major_wins_with_one_conflict() {
    let subs = vec![sub(SubtitleType::Major, 1, 5, 5), sub(SubtitleType::Major, 2, 5, 5)];
    let mut table = Vec::new();
    let conflicts = init_render_data(&mut table, &subs, 10, 0, 0);
    assert_eq!(ids(&table)[4], (Some(2), None));
    assert!(Arc::ptr_eq(&table[4].major.as_ref().unwrap().image, &subs[1].data));
    assert_eq!(
        conflicts,
        vec![Conflict { subtitle_type: SubtitleType::Major, previous_id: 1, id: 2, flap: 5 }]
    );
}

#[test]
fn overlap_run_is_logged_once() {
    let subs = vec![
        sub(SubtitleType::Minor, 1, 1, 10),
        sub(SubtitleType::Minor, 2, 3, 6),
        sub(SubtitleType::Minor, 3, 5, 8),
    ];
    let mut table = Vec::new();
    let conflicts = init_render_data(&mut table, &subs, 12, 0, 0);
    let minors: Vec<Option<usize>> = ids(&table).into_iter().map(|p| p.1).collect();
    assert_eq!(
        minors,
        vec![Some(1), Some(1), Some(2), Some(2), Some(3), Some(3), Some(3), Some(3), Some(1), Some(1), None, None]
    );
    assert_eq!(
        conflicts,
        vec![
            Conflict { subtitle_type: SubtitleType::Minor, previous_id: 1, id: 2, flap: 3 },
            Conflict { subtitle_type: SubtitleType::Minor, previous_id: 2, id: 3, flap: 5 },
            Conflict { subtitle_type: SubtitleType::Minor, previous_id: 1, id: 3, flap: 7 },
        ]
    );
}

#[test]
fn ranges_past_the_video_are_cut_off() {
    let subs = vec![sub(SubtitleType::Major, 1, 0, 2), sub(SubtitleType::Minor, 2, 3, 100)];
    let mut table = Vec::new();
    init_render_data(&mut table, &subs, 4, 0, 0);
    assert_eq!(
        ids(&table),
        vec![(Some(1), None), (Some(1), None), (None, Some(2)), (None, Some(2))]
    );
}

#[test]
fn end_to_end_binding_table() {
    let mut subs = Vec::new();
    for name in ["major-subtitle-1-1-100.png", "minor-subtitle-2-50-150.png", "notes.txt"] {
        if let Some(meta) = parse_subtitle_name(name).unwrap() {
            subs.push(Subtitle {
                subtitle_type: meta.subtitle_type,
                id: meta.id,
                begin_flap: meta.begin_flap,
                end_flap: meta.end_flap,
                data: bitmap(meta.id as u8),
            });
        }
    }
    assert_eq!(subs.len(), 2);
    let mut table = Vec::new();
    let conflicts = init_render_data(&mut table, &subs, 200, 40, 40);
    assert!(conflicts.is_empty());
    let got = ids(&table);
    for (f, pair) in got.iter().enumerate() {
        let major = if f <= 99 { Some(1) } else { None };
        let minor = if (49..=149).contains(&f) { Some(2) } else { None };
        assert_eq!(*pair, (major, minor), "frame {}", f);
    }
    assert_eq!(got[99], (Some(1), Some(2)));
    assert_eq!(got[150], (None, None));
}

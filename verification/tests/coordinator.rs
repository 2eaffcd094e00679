use crispy_code::controller::Command;
use crispy_code::dsl::notes;
use crispy_code::dur::Dur;
use crispy_code::plugin::{Code, Context, ProcessStatus};
use crispy_code::precise::{NoteType, PreciseEventType, SimpleNoteEvent, VoiceTerminatedEvent};
use rtrb::RingBuffer;
use std::collections::HashMap;

type BufNum = usize;

// One cycle: the commands that are sent before it, and what must come out.
struct CycleTest {
    commands: Vec<Command>,
    exp_events: Vec<PreciseEventType>,
    exp_status: ProcessStatus,
}

struct PluginTest {
    tests: HashMap<BufNum, CycleTest>,
    buf_size: usize,
    sample_rate: u32,
    tempo: u32,
}

impl PluginTest {
    fn run(&self) -> Result<(), String> {
        let mut plugin = Code::default();
        let (mut cmds, commands_rx) = RingBuffer::<Command>::new(256);
        plugin.commands_rx = Some(commands_rx);
        let max_buf_num = *self.tests.keys().max().unwrap();
        let mut song_pos_samples: i64 = 0;
        for buf_num in 0..(max_buf_num + 1) {
            let cycle_test_opt = self.tests.get(&buf_num);
            if let Some(cycle_test) = cycle_test_opt {
                for cmd in &cycle_test.commands {
                    assert!(cmds.push(cmd.clone()).is_ok());
                }
            }
            let ctx = Context {
                playing: true,
                pos_samples: song_pos_samples,
                sample_rate: self.sample_rate,
                tempo: self.tempo,
            };
            let (status, events) = plugin.cycle(self.buf_size, &ctx);
            if cycle_test_opt.is_none() {
                // Where nothing is expected for a buffer, nothing may come
                // out of it: a test names every event.
                assert_eq!(events.len(), 0);
                assert_eq!(status, ProcessStatus::Normal);
                song_pos_samples += self.buf_size as i64;
                continue;
            }
            let cycle_test = cycle_test_opt.unwrap();
            assert_eq!(status, cycle_test.exp_status);
            assert_eq!(
                cycle_test.exp_events.len(),
                events.len(),
                "buf_num {:?} events {:?}",
                buf_num,
                events
            );
            for (idx, event) in events.iter().enumerate() {
                assert_eq!(
                    *event, cycle_test.exp_events[idx],
                    "buf_num {:?} event {:?}",
                    buf_num, *event,
                );
            }
            song_pos_samples += self.buf_size as i64;
        }
        Ok(())
    }
}

#[test]
fn test_plugin_pattern_update() -> Result<(), String> {
    let pattern = notes("Cx D'g").map(|p| p.named("foo")).unwrap();

    let test = PluginTest {
        tests: HashMap::from([
            (
                0,
                CycleTest {
                    commands: vec![Command::PatternStart(pattern)],
                    exp_events: vec![PreciseEventType::Note(SimpleNoteEvent {
                        note_type: NoteType::On,
                        timing: 0 as u32,
                        voice_id: Some(0),
                        channel: 1,
                        note: 60,
                        velocity: 89,
                        note_length_samples: 24000 as usize,
                    })],
                    exp_status: ProcessStatus::Normal,
                },
            ),
            (
                93,
                CycleTest {
                    commands: vec![],
                    exp_events: vec![
                        PreciseEventType::Note(SimpleNoteEvent {
                            note_type: NoteType::Off,
                            timing: 192 as u32,
                            voice_id: Some(0),
                            channel: 1,
                            note: 60,
                            velocity: 0,
                            note_length_samples: 0 as usize,
                        }),
                        PreciseEventType::VoiceTerminated(VoiceTerminatedEvent {
                            timing: 192,
                            channel: 1,
                            voice_id: Some(0),
                            note: 60,
                        }),
                    ],
                    exp_status: ProcessStatus::Normal,
                },
            ),
        ]),
        buf_size: 256 as usize,
        sample_rate: 48000,
        tempo: 120_000,
    };
    test.run()
}

fn playing(pos_samples: i64, tempo: u32) -> Context {
    Context { playing: true, pos_samples: pos_samples, sample_rate: 48000, tempo: tempo }
}

fn note_offs(events: &Vec<PreciseEventType>) -> Vec<(u8, Option<i32>, u32)> {
    events
        .iter()
        .filter_map(|e| match e {
            PreciseEventType::Note(n) if n.note_type == NoteType::Off => {
                Some((n.note, n.voice_id, n.timing))
            }
            _ => None,
        })
        .collect()
}

#[test]
fn one_command_is_taken_per_cycle_in_order() {
    let mut plugin = Code::default();
    let (mut cmds, commands_rx) = RingBuffer::<Command>::new(256);
    plugin.commands_rx = Some(commands_rx);
    cmds.push(Command::PatternStart(notes("Cx").unwrap().named("a"))).unwrap();
    cmds.push(Command::PatternStart(notes("Ex").unwrap().named("b"))).unwrap();
    cmds.push(Command::PatternClear(String::from("a"))).unwrap();

    let (status, events) = plugin.cycle(256, &playing(0, 120_000));
    assert_eq!(status, ProcessStatus::Normal);
    assert_eq!(plugin.tracks.len(), 1);
    assert_eq!(events.len(), 1);

    // the second pattern starts one cycle later, at the same place in its cycle
    let (_, events) = plugin.cycle(256, &playing(96000, 120_000));
    assert_eq!(plugin.tracks.len(), 2);
    assert_eq!(plugin.tracks[0].name, "a");
    assert_eq!(plugin.tracks[1].name, "b");
    assert_eq!(events.len(), 2);

    // clearing "a" ends its voices and leaves "b"
    let (_, events) = plugin.cycle(256, &playing(96256, 120_000));
    assert_eq!(plugin.tracks.len(), 1);
    assert_eq!(plugin.tracks[0].name, "b");
    assert_eq!(note_offs(&events), vec![(60, Some(1), 0)]);
}

#[test]
fn starting_a_name_again_replaces_it_and_ends_its_voices() {
    let mut plugin = Code::default();
    let first = Command::PatternStart(notes("Cx").unwrap().named("a"));
    let second = Command::PatternStart(notes("Gx Ax").unwrap().named("a"));
    let (_, events) = plugin.cycle_with(Some(first), 256, &playing(0, 120_000));
    assert_eq!(events.len(), 1);
    let (status, events) = plugin.cycle_with(Some(second), 256, &playing(256, 120_000));
    assert_eq!(status, ProcessStatus::Normal);
    assert_eq!(plugin.tracks.len(), 1);
    assert_eq!(plugin.tracks[0].pattern.events.len(), 2);
    assert_eq!(note_offs(&events), vec![(60, Some(0), 0)]);
    assert!(plugin.tracks[0].schedule.notes_playing.is_empty());
}

#[test]
fn stop_ends_voices_and_silences_the_track() {
    let mut plugin = Code::default();
    let start = Command::PatternStart(notes("Cx").unwrap().named("a"));
    plugin.cycle_with(Some(start), 256, &playing(0, 120_000));
    let stop = Command::PatternStop(String::from("a"));
    let (status, events) = plugin.cycle_with(Some(stop), 256, &playing(256, 120_000));
    assert_eq!(status, ProcessStatus::Normal);
    assert_eq!(note_offs(&events), vec![(60, Some(0), 0)]);
    assert!(!plugin.tracks[0].schedule.playing);
    assert!(plugin.tracks[0].schedule.future_events.is_empty());
    // nothing comes out of a stopped track, not even where its note would start
    let (_, events) = plugin.cycle_with(None, 256, &playing(96000, 120_000));
    assert!(events.is_empty());
    // a name that no track has changes nothing
    let stop = Command::PatternStop(String::from("nobody"));
    let (status, events) = plugin.cycle_with(Some(stop), 256, &playing(96256, 120_000));
    assert_eq!(status, ProcessStatus::Normal);
    assert!(events.is_empty());
}

#[test]
fn stop_all_and_clear_all_reach_every_track() {
    let mut plugin = Code::default();
    plugin.cycle_with(
        Some(Command::PatternStart(notes("Cx").unwrap().named("a"))),
        256,
        &playing(0, 120_000),
    );
    plugin.cycle_with(
        Some(Command::PatternStart(notes("Ex").unwrap().named("b"))),
        256,
        &playing(96000, 120_000),
    );
    let (_, events) = plugin.cycle_with(Some(Command::PatternStopAll), 256, &playing(96256, 120_000));
    assert_eq!(note_offs(&events), vec![(60, Some(1), 0), (64, Some(0), 0)]);
    assert!(plugin.tracks.iter().all(|t| !t.schedule.playing));
    let (_, events) = plugin.cycle_with(Some(Command::PatternClearAll), 256, &playing(96512, 120_000));
    assert!(events.is_empty());
    assert!(plugin.tracks.is_empty());
}

#[test]
fn a_pattern_that_does_not_compile_is_an_error_and_changes_nothing() {
    let mut plugin = Code::default();
    let mut bad = notes("Cx").unwrap().named("a");
    bad.channel = 0;
    let (status, events) = plugin.cycle_with(Some(Command::PatternStart(bad)), 256, &playing(0, 120_000));
    assert_eq!(status, ProcessStatus::Error("processing commands"));
    assert!(events.is_empty());
    assert!(plugin.tracks.is_empty());

    let mut bad = notes("Cx").unwrap().named("a");
    bad.events[0].dur = Dur { num: 1, den: 0 };
    let (status, _) = plugin.cycle_with(Some(Command::PatternStart(bad)), 256, &playing(0, 120_000));
    assert_eq!(status, ProcessStatus::Error("processing commands"));

    // a tempo of zero compiles nothing
    let good = notes("Cx").unwrap().named("a");
    let (status, _) = plugin.cycle_with(Some(Command::PatternStart(good)), 256, &playing(0, 0));
    assert_eq!(status, ProcessStatus::Error("processing commands"));
    assert!(plugin.tracks.is_empty());
}

#[test]
fn a_change_of_tempo_compiles_every_schedule_anew() {
    let mut plugin = Code::default();
    let start = Command::PatternStart(notes("Cx Dx").unwrap().named("a"));
    plugin.cycle_with(Some(start), 256, &playing(0, 120_000));
    assert_eq!(plugin.tracks[0].schedule.length_samples, 96000);
    assert_eq!(plugin.tempo_prev_cycle, 120_000);
    let (status, events) = plugin.cycle_with(None, 256, &playing(256, 60_000));
    assert_eq!(status, ProcessStatus::Normal);
    assert_eq!(plugin.tracks[0].schedule.length_samples, 192000);
    assert!(plugin.tracks[0].schedule.playing);
    assert_eq!(plugin.tempo_prev_cycle, 60_000);
    // the voice of the schedule that was replaced is ended
    assert_eq!(note_offs(&events), vec![(60, Some(0), 0)]);
}

#[test]
fn the_host_stopping_ends_every_voice_and_leaves_the_queue_alone() {
    let mut plugin = Code::default();
    let (mut cmds, commands_rx) = RingBuffer::<Command>::new(4);
    plugin.commands_rx = Some(commands_rx);
    cmds.push(Command::PatternStart(notes("Cx").unwrap().named("a"))).unwrap();
    plugin.cycle(256, &playing(0, 120_000));
    assert!(plugin.playing);
    cmds.push(Command::PatternClearAll).unwrap();
    let halted = Context { playing: false, pos_samples: 256, sample_rate: 48000, tempo: 120_000 };
    let (status, events) = plugin.cycle(256, &halted);
    assert_eq!(status, ProcessStatus::Normal);
    assert!(!plugin.playing);
    assert_eq!(note_offs(&events), vec![(60, Some(0), 0)]);
    assert_eq!(plugin.tracks.len(), 1);
    // once more: nothing is left to end
    let (_, events) = plugin.cycle(256, &halted);
    assert!(events.is_empty());
    // the command that waited is taken when the host plays again
    plugin.cycle(256, &playing(512, 120_000));
    assert!(plugin.tracks.is_empty());
}

#[test]
fn a_cycle_without_a_queue_takes_no_command() {
    let mut plugin = Code::default();
    let (status, events) = plugin.cycle(256, &playing(0, 120_000));
    assert_eq!(status, ProcessStatus::Normal);
    assert!(events.is_empty());
}

use go19::config::{AzLoopConfig, ConfigError, Real};
use go19::distill::{
    augment_and_shuffle, check_shapes, file_key, is_lfs_pointer, read_row, rows_to_read, LoadStats,
    ShapeError, Shapes,
};
use go19::game::{Board, Move, Outcome, Player, ACTION_COUNT};
use go19::lines::{
    aligned, insertion_point, inserted, item_rows, line_ids, pack_feature, rebuild_line_index,
    unpack_feature,
};
use go19::pipeline::{
    arena_game_budget, champion_name, checkpoint_name, collect, due, extend_pool, first_target,
    name_before, prune_list, push_champion, queue_capacity, worker_count, PendingBatch, Progress,
    SelfplayGame, Verdict,
};
use go19::profile::{flush_thread, print_report, record, report, Profile, ScopeTimer};
use go19::replay::{
    check_end, check_format, first_above, frame_snapshot, load, open_snapshot, read_contents,
    read_samples, sample_mixed_recent, save, MixedSampleBatch, Sample, SamplePlan, SnapshotError,
    SnapshotWriter, WeightedSource,
};
use go19::rng::{shuffle, SplitMix64};
use go19::selfplay::{arena_report, count_visits, ArenaReport, GameRecord, SelfplayStats};

fn sample(generation: u64) -> Sample {
    Sample {
        board: Board::new(),
        policy: Vec::new(),
        value: 0,
        generation,
        policy_weight: 1.0f32.to_bits(),
        value_weight: 1.0f32.to_bits(),
        policy_surprise: 0,
        value_surprise: 0,
        predicted_value: 0,
    }
}

fn samples(generation: u64, count: usize) -> Vec<Sample> {
    (0..count).map(|_| sample(generation)).collect()
}

fn running_sums(pool: &[Sample], indices: &[usize], policy: bool) -> Vec<u32> {
    let mut total = 0.0f32;
    indices
        .iter()
        .map(|&index| {
            let bits = if policy {
                pool[index].policy_surprise
            } else {
                pool[index].value_surprise
            };
            total += f32::from_bits(bits).max(1e-4);
            total.to_bits()
        })
        .collect()
}

fn source(pool: &[Sample], indices: &[usize]) -> WeightedSource {
    WeightedSource {
        indices: indices.to_vec(),
        policy_cdf: running_sums(pool, indices, true),
        value_cdf: running_sums(pool, indices, false),
    }
}

fn share(count: usize, fraction: f32) -> usize {
    ((count as f32) * fraction.clamp(0.0, 1.0)).round() as usize
}

fn draw_batch(
    pool: &[Sample],
    count: usize,
    recent_fraction: f32,
    recent_updates: u64,
    policy_fraction: f32,
    value_fraction: f32,
    seed: u64,
) -> MixedSampleBatch {
    let generations = pool.iter().map(|s| s.generation).collect::<Vec<_>>();
    let plan = SamplePlan::new(
        &generations,
        count,
        share(count, recent_fraction),
        recent_updates,
        share(count, policy_fraction),
        share(count, value_fraction),
        seed,
    );
    let recent = source(pool, &plan.recent);
    let historical = source(pool, &plan.historical);
    let draws = plan
        .slots
        .iter()
        .map(|slot| {
            let from = if slot.recent { &recent } else { &historical };
            let cdf = if slot.kind == 1 {
                &from.policy_cdf
            } else {
                &from.value_cdf
            };
            let unit = (slot.word >> 40) as f32 / (1u32 << 24) as f32;
            (unit * cdf.last().map_or(0.0, |bits| f32::from_bits(*bits))).to_bits()
        })
        .collect::<Vec<_>>();
    sample_mixed_recent(pool, &plan, &recent, &historical, &draws)
}

fn text(chars: &[char]) -> String {
    chars.iter().collect()
}

fn chars(text: &str) -> Vec<char> {
    text.chars().collect()
}

#[test]
fn mixed_sampling_reserves_recent_quota() {
    let mut pool = samples(1, 100);
    pool.extend(samples(10, 10));
    let batch = draw_batch(&pool, 1000, 0.4, 2, 0.4, 0.1, 7);
    assert_eq!(batch.samples.len(), 1000);
    assert_eq!(batch.recent_quota, 400);
    assert_eq!(batch.actual_recent, 400);
    let generations = |samples: &[Sample]| {
        samples
            .iter()
            .map(|sample| sample.generation)
            .collect::<Vec<_>>()
    };
    let again = draw_batch(&pool, 1000, 0.4, 2, 0.4, 0.1, 7);
    assert_eq!(generations(&batch.samples), generations(&again.samples));
}

#[test]
fn mixed_sampling_falls_back_when_there_is_no_history() {
    let pool = samples(10, 10);
    let batch = draw_batch(&pool, 100, 0.4, 5, 0.4, 0.1, 7);
    assert_eq!(batch.samples.len(), 100);
    assert_eq!(batch.recent_quota, 40);
    assert_eq!(batch.actual_recent, 100);
}

#[test]
fn surprise_sampling_prefers_informative_samples() {
    let mut pool = samples(10, 20);
    pool[0].policy_surprise = 1000.0f32.to_bits();
    let batch = draw_batch(&pool, 1000, 0.0, 1, 1.0, 0.0, 19);
    let selected_high_surprise = batch
        .samples
        .iter()
        .filter(|sample| f32::from_bits(sample.policy_surprise) > 100.0)
        .count();
    assert!(selected_high_surprise > 900);
}

#[test]
fn empty_pools_and_batches_draw_nothing() {
    let batch = draw_batch(&[], 10, 0.4, 5, 0.4, 0.1, 7);
    assert_eq!(batch.samples.len(), 0);
    assert_eq!(batch.recent_quota, 0);
    let batch = draw_batch(&samples(3, 4), 0, 0.4, 5, 0.4, 0.1, 7);
    assert_eq!(batch.samples.len(), 0);
    assert_eq!(batch.actual_recent, 0);
}

#[test]
fn draws_find_the_first_greater_sum() {
    assert_eq!(first_above(&[1, 3, 3, 9], 0), 0);
    assert_eq!(first_above(&[1, 3, 3, 9], 3), 3);
    assert_eq!(first_above(&[1, 3, 3, 9], 9), 4);
}

#[test]
fn lz4_snapshot_roundtrip() {
    let samples = vec![sample(3), sample(4)];
    let bytes = save(&samples).unwrap();
    let restored = load(Some(&bytes)).unwrap();
    assert_eq!(restored.len(), 2);
    assert_eq!(restored[0].generation, 3);
    assert_eq!(restored[1].generation, 4);
}

fn same_sample(a: &Sample, b: &Sample) -> bool {
    a.board == b.board
        && a.policy == b.policy
        && a.generation == b.generation
        && [a.value, a.policy_weight, a.value_weight] == [b.value, b.policy_weight, b.value_weight]
        && [a.policy_surprise, a.value_surprise, a.predicted_value]
            == [b.policy_surprise, b.value_surprise, b.predicted_value]
}

#[test]
fn saved_samples_keep_histories_symmetries_and_all_labels() {
    let mut board = Board::new();
    let mut samples = Vec::new();
    for ply in 0..120usize {
        let moves = board.rule_legal_moves();
        let mv = moves[(ply * 17) % (moves.len() - 1)];
        assert!(board.play(mv));
        let mut s = sample(ply as u64);
        s.board = board.clone();
        s.policy = vec![(Move::pass(), 0.5f32.to_bits()), (Move(0), 0.5f32.to_bits())];
        s.value = (-1.0f32).to_bits();
        s.policy_surprise = 0.25f32.to_bits();
        s.predicted_value = 0.125f32.to_bits();
        for symmetry in 0..8 {
            samples.push(s.transformed(symmetry));
        }
    }
    let bytes = save(&samples).unwrap();
    let restored = load(Some(&bytes)).unwrap();
    assert_eq!(restored.len(), samples.len());
    for (before, after) in samples.iter().zip(&restored) {
        assert!(same_sample(before, after));
    }
    assert_eq!(
        samples[959].board.rule_legal_moves(),
        restored[959].board.rule_legal_moves()
    );
    assert!(load(Some(&bytes[..bytes.len() / 2])).is_err());
    assert!(load(Some(&bytes[..bytes.len() - 5])).is_err());
    assert!(load(None).unwrap().is_empty());
}

#[test]
fn writers_add_samples_one_by_one() {
    let mut writer = SnapshotWriter::new();
    assert!(load(writer.finish().as_deref()).unwrap().is_empty());
    let mut one = sample(7);
    assert!(one.board.set_komi(-500));
    one.policy = vec![(Move(260), 9)];
    writer.add(&one);
    assert_eq!(writer.count, 1);
    // Two positions of 361 cells and one list of them, each behind its length.
    assert_eq!(writer.body.len(), 369 + 24 + 369 + 8 + 369 + 8 + 12 + 8 + 24);
    assert_eq!(&writer.body[..8], &361u64.to_le_bytes());
    assert_eq!(&writer.body[389..393], &(-500i32).to_le_bytes());
    assert_eq!(&writer.body[1147..1159], b"\x04\x01\0\0\0\0\0\0\x09\0\0\0");
    assert_eq!(&writer.body[1159..1167], &7u64.to_le_bytes());
    let back = read_samples(&writer.body, 1).unwrap();
    assert!(same_sample(&one, &back[0]));
    for cut in [0, 8, 500, writer.body.len() - 1] {
        assert!(matches!(
            read_samples(&writer.body[..cut], 1),
            Err(SnapshotError::BadSample)
        ));
    }
    assert!(matches!(
        read_samples(&writer.body, 0),
        Err(SnapshotError::TrailingData)
    ));
    let mut strange = writer.body.clone();
    strange[8] = 2;
    assert!(matches!(
        read_samples(&strange, 1),
        Err(SnapshotError::BadBoard)
    ));
    strange[8] = 255;
    assert_eq!(read_samples(&strange, 1).unwrap()[0].board.cells()[0], -1);
}

#[test]
fn refusals_of_other_formats_are_told() {
    let error = check_format(Some(b"old jsonl snapshot")).unwrap_err();
    assert_eq!(
        error.text("replay.bin.lz4"),
        "回放 replay.bin.lz4 不是 GO19RP01 二进制快照；旧回放不兼容，请保留旧文件并改用新的 replay_path。模型无需重练。"
    );
    assert!(error.text("").contains("旧回放不兼容"));
    assert_eq!(
        SnapshotError::TrailingData.text("a"),
        "回放 a 包含多余数据"
    );
}

#[test]
fn snapshot_bodies_come_back_whole() {
    let body = (0..200_000u32).map(|i| (i % 251) as u8).collect::<Vec<_>>();
    let bytes = frame_snapshot(2, &body).unwrap();
    assert_eq!(&bytes[..8], b"GO19RP01");
    assert!(bytes.len() < body.len());
    let (count, restored) = open_snapshot(&bytes).unwrap();
    assert_eq!(count, 2);
    assert_eq!(restored, body);
}

#[test]
fn snapshot_frames_are_standard() {
    let bytes = frame_snapshot(3, b"abc").unwrap();
    let mut content = Vec::new();
    let mut decoder = lz4_flex::frame::FrameDecoder::new(&bytes[8..]);
    std::io::Read::read_to_end(&mut decoder, &mut content).unwrap();
    assert_eq!(content, b"\x03\0\0\0\0\0\0\0abc");
}

#[test]
fn damaged_snapshots_are_refused() {
    let bytes = frame_snapshot(1, &[7; 100]).unwrap();
    assert!(matches!(
        open_snapshot(&bytes[..5]),
        Err(SnapshotError::Truncated)
    ));
    assert!(matches!(
        open_snapshot(b"old jsonl snapshot"),
        Err(SnapshotError::NotSnapshot)
    ));
    let mut broken = bytes.clone();
    broken[10] ^= 0xff;
    assert!(matches!(
        open_snapshot(&broken),
        Err(SnapshotError::BadFrame)
    ));
    let huge = frame_snapshot(10_000_001, &[]).unwrap();
    assert!(matches!(
        open_snapshot(&huge),
        Err(SnapshotError::TooManySamples)
    ));
    assert!(matches!(
        read_contents(&[1, 2, 3]),
        Err(SnapshotError::NoCount)
    ));
    assert!(matches!(check_end(5, 4), Err(SnapshotError::TrailingData)));
    assert!(check_end(5, 5).is_ok());
    assert!(check_format(None).is_ok());
    assert!(check_format(Some(&bytes)).is_ok());
    assert!(matches!(
        check_format(Some(b"GO19")),
        Err(SnapshotError::Truncated)
    ));
}

#[test]
fn turned_samples_keep_their_labels() {
    let mut board = Board::new();
    assert!(board.play(Move::new(0, 1).unwrap()));
    let mut one = sample(4);
    one.board = board;
    one.policy = vec![(Move(1), 5), (Move::pass(), 6)];
    let turned = one.transformed(1);
    assert_eq!(turned.generation, 4);
    assert_eq!(turned.policy[1], (Move::pass(), 6));
    assert_eq!(turned.board.cells()[turned.policy[0].0 .0], 1);
}

#[test]
fn shuffles_are_seeded() {
    let mut first = (0..50u32).collect::<Vec<_>>();
    let mut second = first.clone();
    shuffle(&mut first, &mut SplitMix64(9));
    shuffle(&mut second, &mut SplitMix64(9));
    assert_eq!(first, second);
    second.sort_unstable();
    assert_eq!(second, (0..50u32).collect::<Vec<_>>());
    assert_ne!(first, second);
}

#[test]
fn arena_history_does_not_reduce_current_champion_games() {
    assert_eq!(arena_game_budget(200, 0), (200, 0));
    assert_eq!(arena_game_budget(200, 1), (200, 100));
    assert_eq!(arena_game_budget(200, 2), (200, 50));
}

#[test]
fn worker_and_queue_sizes_are_bounded() {
    assert_eq!(worker_count(0, 12), (12, 12));
    assert_eq!(worker_count(128, 12), (128, 12));
    assert_eq!(worker_count(3, 12), (3, 3));
    assert_eq!(queue_capacity(0, 2), 32);
    assert_eq!(queue_capacity(0, 16), 128);
    assert_eq!(queue_capacity(7, 16), 7);
    assert_eq!(first_target(100, 30, 20), 70);
    assert_eq!(first_target(100, 95, 20), 20);
    assert_eq!(first_target(0, 0, 0), 1);
}

fn game(version: u64, count: usize) -> SelfplayGame {
    SelfplayGame {
        worker: 3,
        model_version: version,
        samples: samples(0, count),
        stats: SelfplayStats {
            games: 1,
            draws: 1,
            ..SelfplayStats::default()
        },
    }
}

#[test]
fn collector_drops_stale_games_and_dates_samples() {
    let (batch, full) = collect(PendingBatch::new(), game(4, 2), 5, 3);
    assert_eq!((batch.games, full), (0, false));
    let (batch, full) = collect(batch, game(5, 2), 5, 3);
    assert_eq!((batch.games, full), (1, false));
    let (batch, full) = collect(batch, game(5, 2), 5, 3);
    assert_eq!((batch.games, full), (2, true));
    assert!(batch.samples.iter().all(|s| s.generation == 5));
    assert_eq!(batch.workers, vec![3]);
    let (batch, full) = collect(batch, game(6, 1), 6, 3);
    assert_eq!((batch.games, batch.samples.len(), full), (1, 1, false));
    assert_eq!((batch.oldest_version, batch.newest_version), (6, 6));
    assert_eq!(batch.stats, game(6, 1).stats);
    assert_eq!(batch.workers, vec![3]);
}

#[test]
fn pool_keeps_the_newest_samples() {
    let pool = extend_pool(samples(1, 3), samples(2, 2), 4);
    let generations = pool.iter().map(|s| s.generation).collect::<Vec<_>>();
    assert_eq!(generations, vec![1, 1, 2, 2]);
}

#[test]
fn champions_are_kept_newest_first() {
    let mut history = vec![1, 2];
    push_champion(&mut history, 3, 2);
    assert_eq!(history, vec![3, 1]);
    push_champion(&mut history, 4, 0);
    assert!(history.is_empty());
}

#[test]
fn rejections_set_the_trainer_back() {
    let mut progress = Progress::default();
    progress.advance(5, 100, 7, 0);
    assert_eq!((progress.update, progress.total_samples), (1, 100));
    assert_eq!(progress.settle_arena(true, false, 2), Verdict::Keep);
    assert_eq!(progress.consecutive_rejections, 1);
    assert_eq!(progress.settle_arena(false, true, 2), Verdict::SetBack);
    assert_eq!(progress.consecutive_rejections, 0);
    assert_eq!(progress.settle_arena(true, true, 2), Verdict::Promote);
    assert!(due(20, 40));
    assert!(!due(20, 41));
    assert!(!due(0, 40));
}

#[test]
fn oldest_checkpoints_are_pruned() {
    assert_eq!(text(&checkpoint_name(20)), "update-000020-model.safetensors");
    assert_eq!(text(&champion_name(0)), "champion-history-1.safetensors");
    let names = [100, 20, 3, 40]
        .iter()
        .map(|&n| checkpoint_name(n))
        .chain([champion_name(0)])
        .collect::<Vec<_>>();
    let pruned = prune_list(&names, 2);
    assert_eq!(
        pruned.iter().map(|n| text(n)).collect::<Vec<_>>(),
        vec![
            "update-000003-model.safetensors",
            "update-000020-model.safetensors"
        ]
    );
    assert!(prune_list(&names, 0).is_empty());
    assert!(name_before(&chars("a"), &chars("ab")));
    assert!(!name_before(&chars("b"), &chars("ab")));
}

#[test]
fn default_text_is_exact_and_valid() {
    let config = AzLoopConfig::default();
    let sum = f32::from_bits(config.replay_policy_surprise_fraction.0)
        + f32::from_bits(config.replay_value_surprise_fraction.0);
    assert!(config.validate(Real(sum.to_bits())).is_ok());
    assert_eq!(config.format_version, 22);
    assert_eq!(config.batch_size, 256);
    assert_eq!(config.hidden_size, 128);
    assert_eq!(config.selfplay_samples_per_update, 81920);
    assert_eq!(config.selfplay_workers, 128);
    assert_eq!(config.arena_games, 100);
    assert_eq!(config.replay_capacity, 500000);
    assert_eq!(config.replay_warmup_samples, 81920);
    assert_eq!(config.train_samples_per_update, 81920);
    assert_eq!(f32::from_bits(config.learning_rate.0), 0.0008);
    assert_eq!(f32::from_bits(config.arena_promotion_rate.0), 0.5);
    assert_eq!(f32::from_bits(config.arena_color_score_floor.0), 0.45);
    assert_eq!(f32::from_bits(config.arena_promotion_confidence_z.0), 1.28);
}

#[test]
fn bad_settings_are_told_apart() {
    let half = Real(0.5f32.to_bits());
    let mut config = AzLoopConfig::default();
    config.cpuct = Real(f32::NAN.to_bits());
    assert_eq!(config.validate(half), Err(ConfigError::NotFinite(2)));
    config.cpuct = Real((-1.0f32).to_bits());
    assert_eq!(config.validate(half), Err(ConfigError::Range));
    config.cpuct = Real(1.0f32.to_bits());
    config.cpuct_log = Real((-0.0f32).to_bits());
    assert_eq!(config.validate(half), Ok(()));
    config.format_version = 21;
    assert_eq!(config.validate(half), Err(ConfigError::Version));
    config.format_version = 22;
    config.batch_size = 0;
    assert_eq!(config.validate(half), Err(ConfigError::Zero));
    config.batch_size = 1;
    config.arena_games = 0;
    assert_eq!(config.validate(half), Err(ConfigError::NoArenaGames));
    config.arena_interval = 0;
    config.replay_capacity = 1;
    assert_eq!(config.validate(half), Err(ConfigError::WarmupAboveCapacity));
    config.replay_capacity = 1_000_000;
    assert_eq!(
        config.validate(Real(1.1f32.to_bits())),
        Err(ConfigError::SurpriseAboveOne)
    );
}

#[test]
fn finished_games_are_labelled_for_the_side_to_move() {
    let mut record = GameRecord::new(Board::new());
    assert!(record.is_open());
    assert!(record.play(Move::pass()));
    assert!(record.play(Move::pass()));
    assert!(!record.is_open());
    let labels = record.labels();
    assert_eq!((labels[0].value, labels[0].moves_left), (-1, 2));
    assert_eq!((labels[1].value, labels[1].moves_left), (1, 1));
    let mut stats = SelfplayStats::default();
    stats.close(Some(Outcome::Win(Player::White)), labels.len());
    assert_eq!((stats.white_wins, stats.plies), (1, 2));
}

#[test]
fn undecided_games_are_no_draws_and_teach_nothing() {
    let mut record = GameRecord::new(Board::new());
    assert!(record.play(Move::pass()));
    assert!(record.labels().is_empty());
    let mut stats = SelfplayStats::default();
    stats.close(Some(Outcome::Aborted), 1);
    assert_eq!((stats.draws, stats.aborted), (0, 1));
}

#[test]
fn arena_alternates_colors() {
    let black = Some(Outcome::Win(Player::Black));
    let draw = Some(Outcome::Draw);
    let total = arena_report(&[black, black, draw, draw, Some(Outcome::Aborted)]);
    assert_eq!(total.games(), 5);
    assert_eq!((total.wins, total.losses, total.draws), (1, 2, 2));
    assert_eq!((total.aborted, total.losses_as_black), (1, 1));
    assert_eq!((total.wins_as_black, total.losses_as_white), (1, 1));
    assert_eq!((total.draws_as_black, total.draws_as_white), (1, 1));
    let merged = total.merge(ArenaReport::of_game(black, false));
    assert_eq!(merged.losses, 3);
    assert_eq!(count_visits(&[3, 0, 4]), (7, 2));
}

#[test]
fn profiles_add_up() {
    let mut local = Profile::new();
    let mut global = Profile::new();
    record(&mut local, "short", 5_000);
    record(&mut local, "long", 2_000_000);
    record(&mut local, "long", 1_000_000);
    flush_thread(&mut local, &mut global);
    let timer = ScopeTimer::new("short", 10);
    timer.stop(3_010, &mut local);
    let rows = report(&mut local, &mut global);
    assert_eq!(text(&rows[0].name), "long");
    assert_eq!(rows[0].stat.calls, 2);
    assert_eq!(rows[0].stat.max, 2_000_000);
    assert_eq!((rows[1].stat.calls, rows[1].stat.total), (2, 8_000));
    let printed = text(&print_report(&rows));
    let expected = format!(
        "{:<36} {:>12} {:>12.3} {:>12} {:>12}",
        "long", 2, 3.0, 1500, 2000
    );
    assert!(printed.contains(&expected));
    assert_eq!(text(&print_report(&Vec::new())), "profile: no samples\n");
}

fn packed(own: &[usize], other: &[usize]) -> Vec<u8> {
    let mut row = vec![0u8; 3 * 46];
    for (plane, cells) in [(1, own), (2, other)] {
        for &cell in cells {
            row[plane * 46 + cell / 8] |= 0x80 >> (cell % 8);
        }
    }
    row
}

#[test]
fn teacher_rows_become_positions() {
    let mut policy = vec![0i16; ACTION_COUNT];
    policy[5] = 7;
    policy[9] = 20;
    policy[0] = 20;
    let row = read_row(&packed(&[0], &[1]), 46, &policy).unwrap();
    assert_eq!(row.board.to_move(), Player::Black);
    assert_eq!(row.board.cells()[0], 1);
    assert_eq!(row.board.cells()[1], -1);
    assert_eq!(row.target, vec![(Move(5), 7), (Move(9), 20)]);
    assert_eq!((row.total_mass, row.kept_mass, row.keeps_top), (47, 27, true));
    let mut stats = LoadStats::new(1);
    stats.accept(&row);
    assert_eq!((stats.accepted, stats.top1_kept), (1, 1));
    assert!(read_row(&packed(&[0], &[1]), 46, &[0; ACTION_COUNT]).is_none());
    assert!(read_row(&packed(&[0, 2, 4], &[1]), 46, &policy).is_none());
}

#[test]
fn teacher_files_are_recognised() {
    assert!(is_lfs_pointer(
        b"version https://git-lfs.github.com/spec/v1\noid sha256:0\n"
    ));
    assert!(!is_lfs_pointer(b"PK\x03\x04"));
    assert_eq!(file_key("data12"), 12);
    assert_eq!(file_key("other"), usize::MAX);
    assert_eq!(rows_to_read(5, Some(3)), 3);
    assert_eq!(rows_to_read(5, None), 5);
    let shapes = Shapes {
        binary: (2, 3, 46),
        policy: (2, 1, 362),
        values: (2, 3),
    };
    assert_eq!(check_shapes(shapes), Ok(()));
    assert_eq!(
        check_shapes(Shapes {
            binary: (2, 2, 46),
            ..shapes
        }),
        Err(ShapeError::Binary)
    );
    assert_eq!(
        check_shapes(Shapes {
            values: (1, 3),
            ..shapes
        }),
        Err(ShapeError::Targets)
    );
}

#[test]
fn augmented_samples_are_all_there() {
    let pool = (0..20).map(sample).collect::<Vec<_>>();
    let mixed = augment_and_shuffle(&pool, 5);
    let mut generations = mixed.iter().map(|s| s.generation).collect::<Vec<_>>();
    assert_ne!(generations, (0..20).collect::<Vec<_>>());
    generations.sort_unstable();
    assert_eq!(generations, (0..20).collect::<Vec<_>>());
}

#[test]
fn line_index_matches_alignment_scan_for_empty_candidates() {
    let stones = [
        Move::new(7, 7).unwrap(),
        Move::new(2, 7).unwrap(),
        Move::new(9, 9).unwrap(),
        Move::new(4, 10).unwrap(),
    ];
    let lines = rebuild_line_index(&stones);
    for candidate in (0..361).map(Move).filter(|mv| !stones.contains(mv)) {
        let mut indexed = line_ids(candidate)
            .iter()
            .flat_map(|&line| lines[line].iter().copied())
            .collect::<Vec<_>>();
        indexed.sort_unstable();
        let scanned = stones
            .iter()
            .enumerate()
            .filter(|(_, &stone)| aligned(candidate, stone))
            .map(|(index, _)| index)
            .collect::<Vec<_>>();
        assert_eq!(indexed, scanned);
    }
}

#[test]
fn every_point_has_lines_of_its_own() {
    let stones = (0..361).map(Move).collect::<Vec<_>>();
    let lines = rebuild_line_index(&stones);
    assert_eq!(lines.len(), 118);
    for point in 0..361usize {
        let ids = line_ids(Move(point));
        let (row, col) = (point / 15, point % 15);
        assert_eq!(ids, [row, 25 + col, 54 + row - col, 79 + row + col]);
        let mut indexed = ids
            .iter()
            .flat_map(|&line| lines[line].iter().copied())
            .filter(|&other| other != point)
            .collect::<Vec<_>>();
        indexed.sort_unstable();
        let scanned = (0..361usize)
            .filter(|&other| other != point && aligned(Move(point), Move(other)))
            .collect::<Vec<_>>();
        assert_eq!(indexed, scanned);
    }
}

#[test]
fn features_pack_and_unpack() {
    let packed = pack_feature(1259, 8, 3);
    assert_eq!(packed, 1259 | 8 << 11 | 3 << 15);
    assert_eq!(unpack_feature(packed), (1259, 8, 3));
    assert_eq!(item_rows(packed), [1259, 1273, 1283, 1292, 1418, 1474]);
    assert_eq!(inserted(&[1, 5, 9], 1, 3), vec![1, 3, 5, 9]);
    assert_eq!(insertion_point(&[1, 5, 9], 6), 2);
}

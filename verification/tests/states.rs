use grande::backend::{BranchOutput, BranchTokens, PrefixSource, Token};
use grande::error::Error;
use grande::llama::{
    names_token, same_tokens, state_file, state_key, Options, PrefixMemory, Recall, StateCache,
};
use grande::llama_batch::{deliver, fill_batches, lay_groups, sources_of, Group};

fn prefix(v: &[i32]) -> Vec<Token> {
    v.iter().map(|&t| Token(t)).collect()
}

fn branch(v: &[i32], want: &[usize]) -> BranchTokens {
    BranchTokens { tokens: prefix(v), want: want.to_vec() }
}

#[test]
fn options_have_defaults() {
    let o = Options::default();
    assert_eq!((o.n_ctx, o.n_ubatch, o.n_seq_max, o.n_gpu_layers), (8192, 512, 64, 999));
    assert_eq!(o.state_cache_bytes, 512 << 20);
    assert!(o.flash.is_none() && !o.embeddings && !o.batch_requests);
}

#[test]
fn the_oldest_states_leave_first() {
    let mut c: StateCache<&str> = StateCache::new(10);
    c.put(prefix(&[1]), "one", 4);
    c.put(prefix(&[2]), "two", 4);
    assert_eq!(c.take(&prefix(&[1])), Some("one"));
    assert_eq!(c.take(&prefix(&[1])), None);
    c.put(prefix(&[1]), "one", 4);
    c.put(prefix(&[3]), "three", 4);
    assert_eq!(c.take(&prefix(&[2])), None);
    assert_eq!(c.take(&prefix(&[1])), Some("one"));
    assert_eq!(c.take(&prefix(&[3])), Some("three"));
    c.put(prefix(&[4]), "huge", 11);
    assert_eq!(c.take(&prefix(&[4])), None);
    let mut off: StateCache<&str> = StateCache::new(0);
    off.put(prefix(&[1]), "one", 1);
    assert_eq!(off.take(&prefix(&[1])), None);
}

#[test]
fn states_are_named_by_model_and_prefix() {
    let mut h: u64 = 0xcbf2_9ce4_8422_2325;
    let mut eat = |b: u8| {
        h ^= u64::from(b);
        h = h.wrapping_mul(0x0000_0100_0000_01b3);
    };
    for b in "m".bytes() {
        eat(b);
    }
    eat(0);
    for t in [1i32, -2] {
        for b in t.to_le_bytes() {
            eat(b);
        }
    }
    let key = state_key("m", &prefix(&[1, -2]));
    assert_eq!(key, h);
    assert_eq!(state_file("m", &prefix(&[1, -2])), format!("{h:016x}.state"));
    assert_ne!(key, state_key("m", &prefix(&[1, 2])));
    assert_ne!(key, state_key("n", &prefix(&[1, -2])));
    assert!(same_tokens(&prefix(&[1]), &prefix(&[1])));
    assert!(!same_tokens(&prefix(&[1]), &prefix(&[1, 1])));
    assert!(names_token(1, "<bos>", "<bos>"));
    assert!(!names_token(2, "<bos>", "<bos>"));
}

#[test]
fn a_prefix_is_recalled_before_it_is_decoded() {
    let mut m: PrefixMemory<u8> = PrefixMemory::new(100);
    assert!(matches!(m.prepare(&prefix(&[1])), Recall::Missing));
    assert!(!m.disk_tried(&prefix(&[1]), &prefix(&[2])));
    m.decoded(&prefix(&[1]));
    assert_eq!(m.source, Some(PrefixSource::Decoded));
    assert!(m.prefix_resident(&prefix(&[1])));
    assert!(matches!(m.prepare(&prefix(&[1])), Recall::Resident));
    assert_eq!(m.source, Some(PrefixSource::Resident));
    m.cache.put(prefix(&[2]), 7, 10);
    let Recall::Ram(s) = m.prepare(&prefix(&[2])) else { panic!() };
    m.ram_tried(&prefix(&[2]), s, 10, true);
    assert_eq!(m.source, Some(PrefixSource::Ram));
    assert!(m.prefix_resident(&prefix(&[2])));
    m.evict_resident();
    assert!(!m.prefix_resident(&prefix(&[2])));
    assert!(matches!(m.prepare(&prefix(&[2])), Recall::Ram(7)));
    assert!(m.disk_tried(&prefix(&[3]), &prefix(&[3])));
    assert_eq!(m.source, Some(PrefixSource::Disk));
}

#[test]
fn groups_get_sequences_of_their_own() {
    let groups = vec![
        Group { prefix: prefix(&[1, 2]), branches: vec![branch(&[3], &[0])] },
        Group { prefix: prefix(&[9]), branches: vec![branch(&[4, 5], &[1]), branch(&[6], &[0])] },
    ];
    let l = lay_groups(&groups, &None, 8, 100).unwrap();
    assert_eq!((l.order.clone(), l.bases.clone(), l.next), (vec![0, 1], vec![0, 2], 5));
    let l = lay_groups(&groups, &Some(prefix(&[9])), 8, 100).unwrap();
    assert_eq!(l.order, vec![1, 0]);
    assert!(matches!(lay_groups(&groups, &None, 4, 100), Err(Error::Backend(_))));
    assert!(matches!(lay_groups(&groups, &None, 8, 6), Err(Error::Backend(_))));
    let batches = fill_batches(&groups, &vec![0, 1], false, 4);
    let flat: Vec<_> = batches.iter().flatten().collect();
    assert!(batches.iter().all(|b| b.len() <= 4));
    assert_eq!(flat.iter().map(|i| i.token.0).collect::<Vec<_>>(), vec![1, 2, 3, 9, 4, 5, 6]);
    assert_eq!(flat.iter().map(|i| i.pos).collect::<Vec<_>>(), vec![0, 1, 2, 0, 1, 2, 1]);
    assert_eq!(flat.iter().filter(|i| i.wanted.is_some()).count(), 3);
    assert_eq!(
        sources_of(&vec![1, 0], PrefixSource::Resident),
        vec![PrefixSource::Decoded, PrefixSource::Resident]
    );
}

#[test]
fn rows_are_delivered_in_order() {
    let mut outs = vec![vec![BranchOutput { rows: Vec::new() }]];
    assert!(deliver(&mut outs, (0, 0, 0), vec![1]).is_ok());
    assert!(deliver(&mut outs, (0, 0, 1), vec![2]).is_ok());
    assert_eq!(outs[0][0].rows, vec![vec![1], vec![2]]);
    assert!(deliver(&mut outs, (0, 0, 3), vec![3]).is_err());
}

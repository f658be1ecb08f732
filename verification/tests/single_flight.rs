//! Values minted once per key, whatever the interleaving.
use uring_fs::errno::{Errno, Error};
use uring_fs::single_flight::{Enter, Look, SingleFlight};

fn sf() -> SingleFlight<u32> {
    SingleFlight::new()
}

#[test]
fn a_hit_does_not_mint_again() {
    let mut s = sf();
    assert_eq!(s.get_or_try_init(&1, || Ok(10)).unwrap(), 10);
    assert_eq!(s.get_or_try_init(&1, || panic!("minted twice")).unwrap(), 10);
    assert_eq!(s.len(), 1);
}

#[test]
fn a_failed_mint_leaves_nothing_behind() {
    let mut s = sf();
    for _ in 0..3 {
        assert!(s.get_or_try_init(&1, || Err(Error::Errno(Errno::EIO))).is_err());
        assert_eq!(s.len(), 0, "a failed mint kept its slot");
    }
    // And the key is still mintable afterwards.
    assert_eq!(s.get_or_try_init(&1, || Ok(7)).unwrap(), 7);
    assert_eq!(s.len(), 1);
}

#[test]
fn invalidate_forces_the_next_mint() {
    let mut s = sf();
    assert_eq!(s.get_or_try_init(&1, || Ok(10)).unwrap(), 10);
    s.invalidate(&1);
    assert_eq!(s.len(), 0);
    assert_eq!(s.get_or_try_init(&1, || Ok(11)).unwrap(), 11);
    s.clear();
    assert_eq!(s.len(), 0);
}

/// A caller going by steps, so that its steps can be interleaved with others'.
enum Caller {
    Start,
    AtDoor(u64),
    Minting(u64),
    Done(Result<u32, ()>),
}

/// One step of a caller whose mint gives `outcome`; counts the mints.
fn step(
    s: &mut SingleFlight<u32>,
    key: u64,
    c: Caller,
    outcome: Result<u32, ()>,
    mints: &mut u32,
) -> Caller {
    match c {
        Caller::Start => match s.lookup(key) {
            Look::Hit(v) => Caller::Done(Ok(v)),
            Look::Door(id) => Caller::AtDoor(id),
        },
        Caller::AtDoor(id) => match s.enter(key, id) {
            Enter::Busy => Caller::AtDoor(id),
            Enter::Hit(v) => Caller::Done(Ok(v)),
            Enter::Stale => Caller::Start,
            Enter::Mint => Caller::Minting(id),
        },
        Caller::Minting(id) => {
            if outcome.is_ok() {
                *mints += 1;
            }
            let given = match outcome {
                Ok(v) => Ok(v),
                Err(()) => Err(Error::Errno(Errno::EIO)),
            };
            match s.minted(key, id, given) {
                Ok(v) => Caller::Done(Ok(v)),
                Err(_) => Caller::Done(Err(())),
            }
        }
        done => done,
    }
}

/// Run callers to the end, taking steps in the order that `seed` deals.
fn run(outcomes: &[Result<u32, ()>], seed: u64) -> (SingleFlight<u32>, Vec<Result<u32, ()>>, u32) {
    let mut s = sf();
    let mut callers: Vec<Caller> = outcomes.iter().map(|_| Caller::Start).collect();
    let mut mints = 0;
    let mut x = seed | 1;
    for _ in 0..4000 {
        x ^= x << 13;
        x ^= x >> 7;
        x ^= x << 17;
        let i = (x % callers.len() as u64) as usize;
        let c = std::mem::replace(&mut callers[i], Caller::Start);
        callers[i] = step(&mut s, 1, c, outcomes[i], &mut mints);
    }
    let got = callers
        .into_iter()
        .map(|c| match c {
            Caller::Done(r) => r,
            _ => panic!("a caller never finished"),
        })
        .collect();
    (s, got, mints)
}

#[test]
fn loom_single_flight_mints_once() {
    for seed in 1..500 {
        let (s, got, mints) = run(&[Ok(42), Ok(42)], seed);
        assert_eq!(got, vec![Ok(42), Ok(42)]);
        assert_eq!(mints, 1, "one key minted more than once");
        assert_eq!(s.len(), 1);
    }
}

#[test]
fn loom_a_failed_mint_does_not_orphan_a_successful_one() {
    for seed in 1..500 {
        let (mut s, got, mut mints) = run(&[Err(()), Ok(42)], seed);
        assert_eq!(got[1], Ok(42));
        let again = s
            .get_or_try_init(&1, || {
                mints += 1;
                Ok(99)
            })
            .unwrap();
        assert_eq!(again, 42, "a live value was orphaned by a failed mint");
        assert_eq!(mints, 1, "one key minted more than once");
    }
}

#[test]
fn loom_a_failed_mint_cannot_double_mint() {
    for seed in 1..500 {
        let (s, _, mints) = run(&[Err(()), Ok(42), Ok(42)], seed);
        assert!(mints <= 1, "key minted {} times", mints);
        assert_eq!(s.len(), 1, "the minted value must remain live");
        assert!(s.open.is_empty(), "a slot outlived its callers");
    }
}

#[test]
fn a_key_forgotten_under_a_mint_is_minted_anew() {
    let mut s = sf();
    let old = match s.lookup(1) {
        Look::Door(id) => id,
        Look::Hit(_) => panic!("nothing was minted"),
    };
    assert!(matches!(s.enter(1, old), Enter::Mint));
    s.invalidate(&1);
    let new = match s.lookup(1) {
        Look::Door(id) => id,
        Look::Hit(_) => panic!("nothing was minted"),
    };
    assert_ne!(old, new);
    assert!(matches!(s.enter(1, new), Enter::Mint));
    // The newer slot is the key's; the older mint's value is its caller's only.
    assert_eq!(s.minted(1, old, Ok(1)).unwrap(), 1);
    assert_eq!(s.len(), 0);
    assert_eq!(s.minted(1, new, Ok(2)).unwrap(), 2);
    assert!(matches!(s.lookup(1), Look::Hit(2)));
}

#[test]
fn a_value_minted_for_a_forgotten_key_is_not_cached() {
    for all in [false, true] {
        let mut s = sf();
        let Look::Door(id) = s.lookup(1) else { panic!("nothing was minted") };
        assert!(matches!(s.enter(1, id), Enter::Mint));
        let Look::Door(other) = s.lookup(1) else { panic!("nothing was minted") };
        if all {
            s.clear();
        } else {
            s.invalidate(&1);
        }
        assert_eq!(s.minted(1, id, Ok(7)).unwrap(), 7);
        assert_eq!(s.len(), 0);
        // Whoever was at the slot already is given its value.
        assert!(matches!(s.enter(1, other), Enter::Hit(7)));
        assert!(s.open.is_empty());
        // The next to come mints again.
        assert_eq!(s.get_or_try_init(&1, || Ok(8)).unwrap(), 8);
        assert_eq!(s.get_or_try_init(&1, || panic!("minted twice")).unwrap(), 8);
    }
}

#[test]
fn a_value_need_only_be_cloned() {
    let mut s: SingleFlight<String> = SingleFlight::new();
    assert_eq!(s.get_or_try_init(&1, || Ok("a".to_string())).unwrap(), "a");
    assert_eq!(s.get_or_try_init(&1, || panic!("minted twice")).unwrap(), "a");
}

#[test]
fn a_waiter_on_a_failed_slot_looks_again() {
    let mut s = sf();
    let a = match s.lookup(1) {
        Look::Door(id) => id,
        Look::Hit(_) => panic!("nothing was minted"),
    };
    let b = match s.lookup(1) {
        Look::Door(id) => id,
        Look::Hit(_) => panic!("nothing was minted"),
    };
    assert_eq!(a, b);
    assert!(matches!(s.enter(1, a), Enter::Mint));
    assert!(matches!(s.enter(1, b), Enter::Busy));
    assert!(s.minted(1, a, Err(Error::Errno(Errno::EIO))).is_err());
    assert!(matches!(s.enter(1, b), Enter::Stale));
    assert_eq!(s.len(), 0);
}

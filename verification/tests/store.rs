use particle_sim::config::{Config, ConfigError};
use particle_sim::particle_store::ParticleStore;

#[test]
fn append_returns_the_prior_length() {
    let mut store: ParticleStore<(f32, f32)> = ParticleStore::new();
    assert_eq!(store.len(), 0);
    assert_eq!(store.append((1.0, 2.0), (0.5, 2.0)), 0);
    assert_eq!(store.append((3.0, 4.0), (3.0, 4.0)), 1);
    assert_eq!(store.len(), 2);
    assert_eq!(*store.get(0), (1.0, 2.0));
    assert_eq!(*store.get_previous(0), (0.5, 2.0));
    assert_eq!(*store.get(1), (3.0, 4.0));
    assert_eq!(*store.get_previous(1), (3.0, 4.0));
}

#[test]
fn set_changes_one_particle_only() {
    let mut store: ParticleStore<i32> = ParticleStore::new();
    for i in 0..5 {
        store.append(i, i - 1);
    }
    store.set(2, 40);
    store.set_previous(3, -7);
    assert_eq!(store.positions(), &vec![0, 1, 40, 3, 4]);
    assert_eq!(*store.get_previous(2), 1);
    assert_eq!(*store.get_previous(3), -7);
    assert_eq!(*store.get(3), 3);
    assert_eq!(store.len(), 5);
}

#[test]
fn install_replaces_the_current_positions() {
    let mut store: ParticleStore<i32> = ParticleStore::new();
    store.append(1, 10);
    store.append(2, 20);
    store.install(vec![7, 8]);
    assert_eq!(store.positions(), &vec![7, 8]);
    assert_eq!(*store.get_previous(0), 10);
    assert_eq!(*store.get_previous(1), 20);
    assert_eq!(store.len(), 2);
}

#[test]
fn hundred_particles_stay_hundred() {
    let mut store: ParticleStore<(i64, i64)> = ParticleStore::new();
    for i in 0..100 {
        assert_eq!(store.append((i, 0), (i, 0)), i as usize);
    }
    for step in 0..10 {
        for id in 0..store.len() {
            let now = *store.get(id);
            store.set_previous(id, now);
            store.set(id, (now.0, now.1 + step));
        }
    }
    assert_eq!(store.len(), 100);
    assert_eq!(store.positions().len(), 100);
}

fn config(sub_steps: u32, worker_count: usize, cell_size: u32) -> Config {
    Config { sub_steps, worker_count, cell_size, domain_width: 800, domain_height: 600 }
}

#[test]
fn sound_configuration_is_accepted() {
    assert_eq!(config(4, 8, 40).validate(), Ok(()));
    assert_eq!(config(1, 1, 1).validate(), Ok(()));
}

#[test]
fn zero_cell_size_in_configuration() {
    assert_eq!(config(4, 8, 0).validate(), Err(ConfigError::NonPositiveCellSize));
}

#[test]
fn zero_worker_count_in_configuration() {
    assert_eq!(config(4, 0, 40).validate(), Err(ConfigError::ZeroWorkerCount));
}

#[test]
fn zero_sub_steps_in_configuration() {
    assert_eq!(config(0, 8, 40).validate(), Err(ConfigError::ZeroSubSteps));
}

#[test]
fn cell_size_is_checked_first_then_workers() {
    assert_eq!(config(0, 0, 0).validate(), Err(ConfigError::NonPositiveCellSize));
    assert_eq!(config(0, 0, 40).validate(), Err(ConfigError::ZeroWorkerCount));
}

use fluid_2d::controls::SpawnLayout;
use fluid_2d::spawn::{lattice, layout_size, should_reset, spawn_sites, DAM_SIZE, DROP_SIZE};

#[test]
fn layouts_have_their_sizes() {
    assert_eq!(layout_size(SpawnLayout::DamBreak), (50, 80));
    assert_eq!(layout_size(SpawnLayout::Drop), (80, 50));
    assert_eq!(DAM_SIZE, (50, 80));
    assert_eq!(DROP_SIZE, (80, 50));
}

#[test]
fn the_lattice_runs_column_by_column() {
    assert_eq!(
        lattice(2, 3),
        vec![(0, 0), (0, 1), (0, 2), (1, 0), (1, 1), (1, 2)]
    );
    assert!(lattice(0, 5).is_empty());
    assert!(lattice(4, 0).is_empty());
}

#[test]
fn every_site_appears_once() {
    let sites = spawn_sites(SpawnLayout::Drop);
    assert_eq!(sites.len(), 80 * 50);
    let mut sorted = sites.clone();
    sorted.sort();
    sorted.dedup();
    assert_eq!(sorted.len(), sites.len());
    assert_eq!(sites[17 * 50 + 3], (17, 3));
}

#[test]
fn space_or_a_request_resets() {
    assert!(should_reset(true, false));
    assert!(should_reset(false, true));
    assert!(!should_reset(false, false));
}

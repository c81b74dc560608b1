use cellworld::population::{Cell, Population};

/// Bodies are plain numbers here: the population never looks inside them.
fn sample() -> Population<u32, &'static str> {
    // particles: 0 plain, 1 cell "a", 2 plant, 3 cell "b", 4 plant
    let mut p = Population::new();
    p.add_particle(100);
    p.add_cell(101, "a");
    p.add_plant(102);
    p.add_cell(103, "b");
    p.add_plant(104);
    p
}

fn bodies(p: &Population<u32, &'static str>) -> Vec<u32> {
    (0..p.num_particles() as usize).map(|i| *p.body(i)).collect()
}

fn cell_indices(p: &Population<u32, &'static str>) -> Vec<usize> {
    (0..p.cell_count()).map(|k| p.cell_index(k)).collect()
}

fn plant_indices(p: &Population<u32, &'static str>) -> Vec<usize> {
    (0..p.plant_count()).map(|k| p.plant_index(k)).collect()
}

fn cell_bodies(p: &Population<u32, &'static str>) -> Vec<(&'static str, u32)> {
    (0..p.cell_count()).map(|k| (p.cell(k).state, *p.body(p.cell_index(k)))).collect()
}

fn plant_flags(p: &Population<u32, &'static str>) -> Vec<bool> {
    (0..p.num_particles() as usize).map(|i| p.is_plant(i)).collect()
}

#[test]
fn new_population_is_empty() {
    let p: Population<u32, ()> = Population::new();
    assert_eq!(p.num_particles(), 0);
    assert_eq!(p.num_cells(), 0);
    assert_eq!(p.num_plants(), 0);
    assert_eq!(p.cell_count(), 0);
    assert_eq!(p.plant_count(), 0);
    assert!(p.pending_deletions().is_empty());
}

#[test]
fn adding_records_kinds_and_indices() {
    let p = sample();
    assert_eq!(p.num_particles(), 5);
    assert_eq!(p.num_cells(), 2);
    assert_eq!(p.num_plants(), 2);
    assert_eq!(bodies(&p), vec![100, 101, 102, 103, 104]);
    assert_eq!(plant_flags(&p), vec![false, false, true, false, true]);
    assert_eq!(cell_indices(&p), vec![1, 3]);
    assert_eq!(plant_indices(&p), vec![2, 4]);
    assert!(!p.cell(0).to_delete);
    assert_eq!(p.cell(1).state, "b");
}

#[test]
fn plain_particle_is_neither_cell_nor_plant() {
    let mut p: Population<u32, ()> = Population::new();
    p.add_particle(7);
    assert_eq!(p.num_particles(), 1);
    assert_eq!(p.num_cells(), 0);
    assert_eq!(p.num_plants(), 0);
    assert!(!p.is_plant(0));
    assert_eq!(p.cell_count(), 0);
}

#[test]
fn deleting_out_of_range_changes_nothing() {
    let mut p = sample();
    p.delete_particle_immediate(5);
    p.delete_particle_immediate(usize::MAX);
    assert_eq!(bodies(&p), vec![100, 101, 102, 103, 104]);
    assert_eq!(p.num_cells(), 2);
    assert_eq!(cell_indices(&p), vec![1, 3]);
}

#[test]
fn deleting_a_plant_renumbers_the_lists() {
    let mut p = sample();
    p.delete_particle_immediate(2);
    assert_eq!(bodies(&p), vec![100, 101, 103, 104]);
    assert_eq!(plant_flags(&p), vec![false, false, false, true]);
    assert_eq!(cell_indices(&p), vec![1, 2]);
    assert_eq!(plant_indices(&p), vec![3]);
    assert_eq!(p.num_plants(), 1);
    assert_eq!(p.num_cells(), 2);
    assert_eq!(p.num_particles(), 4);
}

#[test]
fn deleting_a_cell_removes_it() {
    let mut p = sample();
    p.delete_particle_immediate(1);
    assert_eq!(bodies(&p), vec![100, 102, 103, 104]);
    assert_eq!(cell_indices(&p), vec![2]);
    assert_eq!(p.cell(0).state, "b");
    assert_eq!(plant_indices(&p), vec![1, 3]);
    assert_eq!(p.num_cells(), 1);
    assert_eq!(p.num_plants(), 2);
}

#[test]
fn deleting_a_plain_particle_lowers_the_cell_counter() {
    // The cell counter goes down for every deleted particle that is not a
    // plant, even when it carried no cell.
    let mut p = sample();
    p.delete_particle_immediate(0);
    assert_eq!(p.num_cells(), 1);
    assert_eq!(p.cell_count(), 2);
    assert_eq!(cell_indices(&p), vec![0, 2]);
    assert_eq!(plant_indices(&p), vec![1, 3]);
}

#[test]
fn cells_keep_their_bodies_after_a_deletion() {
    let mut p = sample();
    assert_eq!(cell_bodies(&p), vec![("a", 101), ("b", 103)]);
    p.delete_particle_immediate(0);
    assert_eq!(cell_bodies(&p), vec![("a", 101), ("b", 103)]);
    p.delete_particle_immediate(0);
    assert_eq!(cell_bodies(&p), vec![("b", 103)]);
    let plants: Vec<u32> = (0..p.plant_count()).map(|k| *p.body(p.plant_index(k))).collect();
    assert_eq!(plants, vec![102, 104]);
}

#[test]
fn marking_queues_flagged_cells_in_cell_order() {
    let mut p = sample();
    let c = p.replace_cell(1, Cell { to_delete: true, state: "b2" });
    assert_eq!(c.state, "b");
    assert!(!c.to_delete);
    p.replace_cell(0, Cell { to_delete: true, state: "a" });
    p.mark_dead_cells();
    assert_eq!(p.pending_deletions(), &vec![1, 3]);
    p.mark_dead_cells();
    assert_eq!(p.pending_deletions(), &vec![1, 3, 1, 3]);
}

#[test]
fn processing_deletes_each_queued_particle_once() {
    let mut p = sample();
    p.replace_cell(1, Cell { to_delete: true, state: "b" });
    p.mark_dead_cells();
    p.mark_dead_cells();
    assert_eq!(p.pending_deletions(), &vec![3, 3]);
    p.process_deletions();
    assert!(p.pending_deletions().is_empty());
    assert_eq!(bodies(&p), vec![100, 101, 102, 104]);
    assert_eq!(cell_bodies(&p), vec![("a", 101)]);
    assert_eq!(plant_indices(&p), vec![2, 3]);
    assert_eq!(p.num_cells(), 1);
    assert_eq!(p.num_particles(), 4);
}

#[test]
fn processing_several_deletions_keeps_the_order() {
    let mut p = sample();
    p.replace_cell(0, Cell { to_delete: true, state: "a" });
    p.replace_cell(1, Cell { to_delete: true, state: "b" });
    p.mark_dead_cells();
    p.process_deletions();
    assert_eq!(bodies(&p), vec![100, 102, 104]);
    assert_eq!(plant_flags(&p), vec![false, true, true]);
    assert_eq!(p.cell_count(), 0);
    assert_eq!(plant_indices(&p), vec![1, 2]);
    assert_eq!(p.num_cells(), 0);
    assert_eq!(p.num_plants(), 2);
}

#[test]
fn processing_an_empty_queue_changes_nothing() {
    let mut p = sample();
    p.process_deletions();
    assert_eq!(bodies(&p), vec![100, 101, 102, 103, 104]);
    assert_eq!(cell_indices(&p), vec![1, 3]);
}

#[test]
fn plant_counter_matches_plant_flags() {
    let mut p = sample();
    p.add_plant(105);
    p.delete_particle_immediate(2);
    p.add_cell(106, "c");
    p.delete_particle_immediate(0);
    let flagged = plant_flags(&p).iter().filter(|f| **f).count();
    assert_eq!(p.num_plants() as usize, flagged);
    assert_eq!(p.plant_count(), flagged);
    for k in 0..p.cell_count() {
        assert!(!p.is_plant(p.cell_index(k)));
    }
}

#[test]
fn set_body_replaces_one_body() {
    let mut p = sample();
    p.set_body(3, 999);
    assert_eq!(bodies(&p), vec![100, 101, 102, 999, 104]);
    assert_eq!(cell_bodies(&p), vec![("a", 101), ("b", 999)]);
}

#[test]
fn random_creature_index_is_below_the_cell_counter() {
    let p = sample();
    let mut rng = rand::rng();
    let mut seen = [false; 2];
    for _ in 0..200 {
        let k = p.random_creature_index(&mut rng);
        assert!(k < 2);
        seen[k] = true;
    }
    assert!(seen[0] && seen[1]);
}

#[test]
fn random_creature_index_with_one_cell() {
    let mut p: Population<u32, ()> = Population::new();
    p.add_cell(1, ());
    let mut rng = rand::rng();
    for _ in 0..20 {
        assert_eq!(p.random_creature_index(&mut rng), 0);
    }
}

#[test]
fn queued_indices_out_of_range_are_ignored() {
    let mut p = sample();
    p.queue_deletion(7);
    p.queue_deletion(0);
    p.queue_deletion(0);
    p.queue_deletion(3);
    assert_eq!(p.pending_deletions(), &vec![7, 0, 0, 3]);
    p.process_deletions();
    assert!(p.pending_deletions().is_empty());
    assert_eq!(bodies(&p), vec![101, 102, 104]);
    assert_eq!(cell_bodies(&p), vec![("a", 101)]);
    assert_eq!(plant_indices(&p), vec![1, 2]);
    // one plain particle and one cell went: the cell counter drops by two
    assert_eq!(p.num_cells(), 0);
    assert_eq!(p.cell_count(), 1);
}

#[test]
fn deleting_the_newest_cell_or_plant_undoes_adding_it() {
    let mut p = sample();
    p.add_cell(200, "c");
    p.delete_particle_immediate(5);
    assert_eq!(bodies(&p), vec![100, 101, 102, 103, 104]);
    assert_eq!(cell_bodies(&p), vec![("a", 101), ("b", 103)]);
    assert_eq!(p.num_cells(), 2);
    p.add_plant(201);
    p.delete_particle_immediate(5);
    assert_eq!(bodies(&p), vec![100, 101, 102, 103, 104]);
    assert_eq!(plant_indices(&p), vec![2, 4]);
    assert_eq!(p.num_plants(), 2);
    p.add_particle(202);
    p.delete_particle_immediate(5);
    assert_eq!(bodies(&p), vec![100, 101, 102, 103, 104]);
    assert_eq!(p.num_cells(), 1);
}

#[test]
fn flagged_cells_are_gone_after_a_step() {
    let mut p = sample();
    p.add_cell(105, "c");
    p.replace_cell(0, Cell { to_delete: true, state: "a" });
    p.replace_cell(2, Cell { to_delete: true, state: "c" });
    p.mark_dead_cells();
    p.process_deletions();
    for k in 0..p.cell_count() {
        assert!(!p.cell(k).to_delete);
    }
    assert_eq!(cell_bodies(&p), vec![("b", 103)]);
    assert_eq!(bodies(&p), vec![100, 102, 103, 104]);
}

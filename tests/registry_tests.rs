use maze3d::entities::{Entity, EntityManager};

type Pos = [f32; 3];

fn draw_ids(reg: &EntityManager<Pos>) -> Vec<usize> {
    reg.draw_iter().iter().map(|e| e.id()).collect()
}

fn storage_ids(reg: &EntityManager<Pos>) -> Vec<usize> {
    reg.iter().iter().map(|e| e.id()).collect()
}

fn add_rat(reg: &mut EntityManager<Pos>, x: f32) -> usize {
    let id = reg.generate_id();
    reg.add(Entity::Rat { id, position: [x, 0.5, 0.0] });
    id
}

#[test]
fn generated_ids_increase() {
    let mut reg = EntityManager::<Pos>::new();
    assert_eq!(reg.generate_id(), 0);
    assert_eq!(reg.generate_id(), 1);
    assert_eq!(reg.generate_id(), 2);
    assert_eq!(reg.len(), 0);
}

#[test]
fn entity_accessors() {
    let e = Entity::End { id: 4, position: [1.0, 2.0, 3.0] };
    assert_eq!(e.id(), 4);
    assert_eq!(e.position(), [1.0, 2.0, 3.0]);
    assert_eq!(e.collision_radius(), 12);
    assert_eq!(Entity::Dodecahedron { id: 1, position: [0.0; 3] }.collision_radius(), 12);
    assert_eq!(Entity::Rat { id: 1, position: [0.0; 3] }.collision_radius(), 0);
    assert_eq!(Entity::Start { id: 1, position: [0.0; 3] }.collision_radius(), 0);
    assert_eq!(Entity::OpenGL { id: 1, position: [0.0; 3] }.collision_radius(), 0);
}

#[test]
fn add_appends_to_storage_and_draw_order() {
    let mut reg = EntityManager::<Pos>::new();
    let a = add_rat(&mut reg, 1.0);
    let b = add_rat(&mut reg, 2.0);
    let c = add_rat(&mut reg, 3.0);
    assert_eq!(reg.len(), 3);
    assert_eq!(storage_ids(&reg), vec![a, b, c]);
    assert_eq!(draw_ids(&reg), vec![a, b, c]);
}

#[test]
fn remove_by_id_reports_presence() {
    let mut reg = EntityManager::<Pos>::new();
    let a = add_rat(&mut reg, 1.0);
    let b = add_rat(&mut reg, 2.0);
    assert!(reg.remove_by_id(a));
    assert!(!reg.remove_by_id(a));
    assert!(!reg.remove_by_id(99));
    assert_eq!(storage_ids(&reg), vec![b]);
    assert_eq!(draw_ids(&reg), vec![b]);
}

#[test]
fn removal_reindexes_draw_order() {
    let mut reg = EntityManager::<Pos>::new();
    let ids: Vec<usize> = (0..5).map(|i| add_rat(&mut reg, i as f32)).collect();
    // draw order by descending x: storage indices 4, 3, 2, 1, 0
    reg.sort_drawables_by(&vec![4, 3, 2, 1, 0]);
    assert_eq!(draw_ids(&reg), vec![ids[4], ids[3], ids[2], ids[1], ids[0]]);
    reg.remove_by_index(1);
    assert_eq!(storage_ids(&reg), vec![ids[0], ids[2], ids[3], ids[4]]);
    assert_eq!(draw_ids(&reg), vec![ids[4], ids[3], ids[2], ids[0]]);
    assert!(reg.remove_by_id(ids[4]));
    assert_eq!(draw_ids(&reg), vec![ids[3], ids[2], ids[0]]);
}

#[test]
fn sorting_draw_order_leaves_storage() {
    let mut reg = EntityManager::<Pos>::new();
    let ids: Vec<usize> = (0..4).map(|i| add_rat(&mut reg, i as f32)).collect();
    reg.sort_drawables_by(&vec![30, 10, 20, 10]);
    assert_eq!(draw_ids(&reg), vec![ids[1], ids[3], ids[2], ids[0]]);
    assert_eq!(storage_ids(&reg), ids);
}

#[test]
fn get_mut_by_id_finds_and_edits() {
    let mut reg = EntityManager::<Pos>::new();
    let a = add_rat(&mut reg, 1.0);
    let b = add_rat(&mut reg, 2.0);
    match reg.get_mut_by_id(b) {
        Some(Entity::Rat { position, .. }) => position[0] = 7.0,
        _ => panic!("entity {} not found", b),
    }
    assert!(reg.get_mut_by_id(5).is_none());
    assert_eq!(reg.get_mut_by_index(1).position(), [7.0, 0.5, 0.0]);
    assert_eq!(reg.get_mut_by_index(0).id(), a);
}

#[test]
fn add_remove_sequence_keeps_permutation() {
    let mut reg = EntityManager::<Pos>::new();
    let mut live: Vec<usize> = Vec::new();
    for round in 0..6 {
        for k in 0..4 {
            live.push(add_rat(&mut reg, (round * 4 + k) as f32));
        }
        let victim = live.remove((round * 3) % live.len());
        assert!(reg.remove_by_id(victim));
        let keys: Vec<u64> = (0..reg.len()).map(|i| ((i * 7) % 5) as u64).collect();
        reg.sort_drawables_by(&keys);
        let mut order: Vec<usize> = draw_ids(&reg);
        assert_eq!(order.len(), reg.len());
        order.sort();
        assert_eq!(order, live);
        for id in &live {
            assert!(reg.get_mut_by_id(*id).is_some());
        }
        assert!(reg.get_mut_by_id(victim).is_none());
    }
}

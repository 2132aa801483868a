use ecs::system::{coords_add, AccessDecl, Coords, MoveSystem, System, Tag};
use ecs::world::{ReadAccess, World, WriteAccess};
use ecs::EcsError;

const POS: u32 = 1;
const VEL: u32 = 2;

#[test]
fn move_system_shifts_positions_by_velocities() {
    let mut w: World<Coords> = World::new();
    w.register_component(POS).unwrap();
    w.register_component(VEL).unwrap();
    let w = w
        .new_entity()
        .add(POS, Coords { x: 4, y: 3 })
        .add(VEL, Coords { x: 1, y: 3 })
        .tag(Tag::HasGravity.id())
        .done();
    let mut w = w;
    let sys = MoveSystem { gravity_tag: Tag::HasGravity.id(), velocity: VEL, position: POS };
    let written = w.run_system(&sys).unwrap();
    assert_eq!(written, vec![(POS, 0)]);
    assert_eq!(w.get_comp(POS, 0), Ok(Coords { x: 5, y: 6 }));
    assert_eq!(w.get_comp(VEL, 0), Ok(Coords { x: 1, y: 3 }));
}

#[test]
fn move_system_runs_repeatedly_and_sees_prior_writes() {
    let mut w: World<Coords> = World::new();
    w.register_component(POS).unwrap();
    w.register_component(VEL).unwrap();
    let w = w
        .new_entity()
        .add(POS, Coords { x: 0, y: 0 })
        .add(VEL, Coords { x: 2, y: -1 })
        .tag(Tag::HasGravity.id())
        .done();
    let mut w = w;
    let sys = MoveSystem { gravity_tag: Tag::HasGravity.id(), velocity: VEL, position: POS };
    w.run_system(&sys).unwrap();
    w.run_system(&sys).unwrap();
    w.run_system(&sys).unwrap();
    assert_eq!(w.get_comp(POS, 0), Ok(Coords { x: 6, y: -3 }));
}

#[test]
fn coordinate_addition_saturates_at_the_integer_bounds() {
    assert_eq!(
        coords_add(Coords { x: i64::MAX, y: i64::MIN }, Coords { x: 1, y: -1 }),
        Coords { x: i64::MAX, y: i64::MIN }
    );
    assert_eq!(
        coords_add(Coords { x: -3, y: 7 }, Coords { x: 5, y: -9 }),
        Coords { x: 2, y: -2 }
    );
}

#[derive(Clone, Copy, Debug, PartialEq)]
enum Comp {
    Pos(f32, f32),
    Vel(f32, f32),
}

impl ecs::Component for Comp {}

struct Gravity;

impl System<Comp> for Gravity {
    fn declares(&self) -> Vec<AccessDecl> {
        vec![
            AccessDecl { tag: Tag::HasGravity.id(), comp: VEL, write: false },
            AccessDecl { tag: Tag::HasGravity.id(), comp: POS, write: true },
        ]
    }

    fn run(&self, reads: &Vec<ReadAccess<Comp>>, writes: &mut Vec<WriteAccess<Comp>>) {
        for w in writes.iter_mut() {
            let (px, py) = match w.value() {
                Comp::Pos(x, y) => (x, y),
                Comp::Vel(x, y) => (x, y),
            };
            for r in reads.iter() {
                if r.entity_id() == w.entity_id() && r.component_id() == VEL {
                    if let Comp::Vel(vx, vy) = r.value() {
                        w.set_value(Comp::Pos(px + vx, py + vy));
                    }
                }
            }
        }
    }
}

#[test]
fn gravity_system_applies_velocity_to_position() {
    let mut w: World<Comp> = World::new();
    w.register_component(POS).unwrap();
    w.register_component(VEL).unwrap();
    let w = w
        .new_entity()
        .add(POS, Comp::Pos(4.0, 3.0))
        .add(VEL, Comp::Vel(1.0, 3.0))
        .tag(Tag::HasGravity.id())
        .done();
    let mut w = w;
    w.run_system(&Gravity).unwrap();
    assert_eq!(w.get_comp(POS, 0), Ok(Comp::Pos(5.0, 6.0)));
    assert_eq!(w.get_comp(VEL, 0), Ok(Comp::Vel(1.0, 3.0)));
}

#[test]
fn fetching_a_component_never_attached_misses() {
    let mut w: World<Comp> = World::new();
    w.register_component(POS).unwrap();
    w.register_component(VEL).unwrap();
    let w = w.new_entity().add(POS, Comp::Pos(0.0, 0.0)).done();
    let mut w = w;
    assert_eq!(w.get_comp(VEL, 0), Err(EcsError::Missing));
}

#[test]
fn tagged_entity_without_declared_component_fails_the_run() {
    let mut w: World<Coords> = World::new();
    w.register_component(POS).unwrap();
    w.register_component(VEL).unwrap();
    let w = w
        .new_entity()
        .add(POS, Coords { x: 1, y: 1 })
        .tag(Tag::HasGravity.id())
        .done();
    let mut w = w;
    let sys = MoveSystem { gravity_tag: Tag::HasGravity.id(), velocity: VEL, position: POS };
    assert_eq!(w.run_system(&sys), Err(EcsError::Missing));
    assert_eq!(w.get_comp(POS, 0), Ok(Coords { x: 1, y: 1 }));
}

struct Overlapping;

impl System<Coords> for Overlapping {
    fn declares(&self) -> Vec<AccessDecl> {
        vec![
            AccessDecl { tag: Tag::HasGravity.id(), comp: POS, write: false },
            AccessDecl { tag: Tag::HasGravity.id(), comp: POS, write: true },
        ]
    }

    fn run(&self, _reads: &Vec<ReadAccess<Coords>>, writes: &mut Vec<WriteAccess<Coords>>) {
        for w in writes.iter_mut() {
            w.set_value(Coords { x: -1, y: -1 });
        }
    }
}

#[test]
fn overlapping_read_and_write_sets_conflict_and_change_nothing() {
    let mut w: World<Coords> = World::new();
    w.register_component(POS).unwrap();
    let w = w
        .new_entity()
        .add(POS, Coords { x: 1, y: 2 })
        .tag(Tag::HasGravity.id())
        .done();
    let mut w = w;
    assert_eq!(w.run_system(&Overlapping), Err(EcsError::Conflict));
    assert_eq!(w.get_comp(POS, 0), Ok(Coords { x: 1, y: 2 }));
}

#[test]
fn run_with_unregistered_declared_component_is_config_error() {
    let mut w: World<Coords> = World::new();
    w.register_component(POS).unwrap();
    let w = w
        .new_entity()
        .add(POS, Coords { x: 3, y: 4 })
        .tag(Tag::HasGravity.id())
        .done();
    let mut w = w;
    let sys = MoveSystem { gravity_tag: Tag::HasGravity.id(), velocity: VEL, position: POS };
    assert_eq!(w.run_system(&sys), Err(EcsError::Unregistered));
    assert_eq!(w.get_comp(POS, 0), Ok(Coords { x: 3, y: 4 }));
}

#[test]
fn fetch_views_hands_out_the_declared_views() {
    let mut w: World<Coords> = World::new();
    w.register_component(POS).unwrap();
    let w = w
        .new_entity()
        .add(POS, Coords { x: 7, y: 8 })
        .tag(Tag::HasGravity.id())
        .done();
    let mut w = w;
    let decls = vec![AccessDecl { tag: Tag::HasGravity.id(), comp: POS, write: false }];
    let (reads, writes) = w.fetch_views(&decls).unwrap();
    assert_eq!(reads.len(), 1);
    assert!(writes.is_empty());
    assert_eq!(reads[0].component_id(), POS);
    assert_eq!(reads[0].entity_id(), 0);
    assert_eq!(reads[0].value(), Coords { x: 7, y: 8 });
    match w.get_comp_mut(POS, 0) {
        Err(EcsError::Conflict) => (),
        other => panic!("expected a conflict, got {:?}", other.map(|v| v.value())),
    }
    for g in reads {
        w.release_read(g).unwrap();
    }
    assert!(w.get_comp_mut(POS, 0).is_ok());
}

#[test]
fn failed_fetch_gives_every_view_back() {
    let mut w: World<Coords> = World::new();
    w.register_component(POS).unwrap();
    w.register_component(VEL).unwrap();
    let w = w
        .new_entity()
        .add(POS, Coords { x: 1, y: 2 })
        .tag(Tag::HasGravity.id())
        .done();
    let mut w = w;
    let decls = vec![
        AccessDecl { tag: Tag::HasGravity.id(), comp: POS, write: false },
        AccessDecl { tag: Tag::HasGravity.id(), comp: VEL, write: false },
    ];
    assert_eq!(w.fetch_views(&decls).err(), Some(EcsError::Missing));
    let g = w.get_comp_mut(POS, 0).unwrap();
    w.release_write(g).unwrap();
}

#[test]
fn run_reports_the_written_pairs() {
    let mut w: World<Coords> = World::new();
    w.register_component(POS).unwrap();
    w.register_component(VEL).unwrap();
    let w = w
        .new_entity()
        .add(POS, Coords { x: 0, y: 0 })
        .add(VEL, Coords { x: 1, y: 1 })
        .tag(Tag::HasGravity.id())
        .done();
    let w = w
        .new_entity()
        .add(POS, Coords { x: 9, y: 9 })
        .add(VEL, Coords { x: 1, y: 1 })
        .tag(Tag::HasGravity.id())
        .done();
    let mut w = w;
    let sys = MoveSystem { gravity_tag: Tag::HasGravity.id(), velocity: VEL, position: POS };
    let written = w.run_system(&sys).unwrap();
    assert_eq!(written, vec![(POS, 0), (POS, 1)]);
}

use carnot::resource::{Res, ResMut};
use carnot::system::{Schedule, System, SystemParam, SystemStage};
use carnot::world::World;

#[derive(Clone, Copy, PartialEq, Eq, Debug)]
enum Val {
    Log { names: [u8; 8], len: u8 },
    Ticks(u64),
}

const LOG: u64 = 20;
const TICKS: u64 = 21;

fn append_name(world: &mut World<Val>, name: u8) {
    let mut guard = world.get_resource_mut(LOG).unwrap().unwrap();
    if let Val::Log { mut names, len } = guard.value {
        names[len as usize] = name;
        guard.value = Val::Log {
            names,
            len: len + 1,
        };
    }
    world.release_resource_mut(LOG, guard);
}

enum NamedSystem {
    A,
    B,
}

impl System<Val> for NamedSystem {
    fn run(&self, world: &mut World<Val>) {
        match self {
            NamedSystem::A => append_name(world, b'A'),
            NamedSystem::B => append_name(world, b'B'),
        }
    }
}

struct TickSystem;

impl System<Val> for TickSystem {
    fn run(&self, world: &mut World<Val>) {
        let mut guard = world.get_resource_mut(TICKS).unwrap().unwrap();
        if let Val::Ticks(n) = guard.value {
            guard.value = Val::Ticks(n + 1);
        }
        world.release_resource_mut(TICKS, guard);
    }
}

struct NoOpSystem;

impl System<Val> for NoOpSystem {
    fn run(&self, _world: &mut World<Val>) {}
}

fn read_log(world: &mut World<Val>) -> Vec<u8> {
    let guard = world.get_resource(LOG).unwrap().unwrap();
    let out = match guard.value {
        Val::Log { names, len } => names[..len as usize].to_vec(),
        _ => Vec::new(),
    };
    world.release_resource(LOG);
    out
}

#[test]
fn test_0() {
    let system = NoOpSystem;
    let mut world: World<Val> = World::default();
    system.run(&mut world);
}

#[test]
fn scenario_e() {
    let mut world: World<Val> = World::new();
    world.add_resource(
        LOG,
        Val::Log {
            names: [0; 8],
            len: 0,
        },
    );
    let mut schedule: Schedule<NamedSystem> = Schedule::new();
    schedule.add_system(SystemStage::Update, NamedSystem::A);
    schedule.add_system(SystemStage::Update, NamedSystem::B);

    schedule.run_update(&mut world);
    assert_eq!(read_log(&mut world), vec![b'A', b'B']);
}

#[test]
fn startup_runs_in_registration_order() {
    let mut world: World<Val> = World::new();
    world.add_resource(
        LOG,
        Val::Log {
            names: [0; 8],
            len: 0,
        },
    );
    let mut schedule: Schedule<NamedSystem> = Schedule::new();
    schedule.add_system(SystemStage::Startup, NamedSystem::B);
    schedule.add_system(SystemStage::Startup, NamedSystem::A);
    schedule.add_system(SystemStage::Update, NamedSystem::B);

    schedule.run_startup(&mut world);
    assert_eq!(read_log(&mut world), vec![b'B', b'A']);

    schedule.run_update(&mut world);
    assert_eq!(read_log(&mut world), vec![b'B', b'A', b'B']);
}

#[test]
fn update_stage_runs_once_per_frame() {
    let mut world: World<Val> = World::new();
    world.add_resource(TICKS, Val::Ticks(0));
    let mut schedule: Schedule<TickSystem> = Schedule::new();
    schedule.add_system(SystemStage::Update, TickSystem);

    for _ in 0..3 {
        schedule.run_update(&mut world);
    }
    let guard = world.get_resource(TICKS).unwrap().unwrap();
    assert_eq!(guard.value, Val::Ticks(3));
    world.release_resource(TICKS);
}

#[test]
fn system_params_resolve_from_world() {
    let mut world: World<Val> = World::new();
    world.add_resource(TICKS, Val::Ticks(41));

    let resolved: Option<ResMut<Val>> = SystemParam::fetch(&mut world, TICKS).unwrap();
    let mut guard = resolved.unwrap();
    assert_eq!(guard.value, Val::Ticks(41));
    guard.value = Val::Ticks(42);
    world.release_resource_mut(TICKS, guard);

    let resolved: Option<Res<Val>> = SystemParam::fetch(&mut world, TICKS).unwrap();
    assert_eq!(resolved.unwrap().value, Val::Ticks(42));
    world.release_resource(TICKS);

    let absent: Option<Res<Val>> = SystemParam::fetch(&mut world, LOG).unwrap();
    assert!(absent.is_none());
}

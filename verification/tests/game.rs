use std::collections::BTreeMap;

use ue5_dumper::esp::actors::{find_actors_offset, read_actors, ActorWalk};
use ue5_dumper::esp::histogram::{class_histogram, top_classes, ClassCount};
use ue5_dumper::esp::overlay::{
    collect_player_targets, collect_targets, display_name, is_game_window, rgb, ActorFilter,
    MarkerWalk,
};
use ue5_dumper::esp::players::{read_players, PlayerView};
use ue5_dumper::esp::probe::{
    first_visible, probe, start_overlay, LevelActors, ProbeFailure, ProbeWalk,
};
use ue5_dumper::esp::{actor_location, local_player_name, read_camera, read_fstring};
use ue5_dumper::mem::{Missing, Outcome, ProcessHandle};
use ue5_dumper::scanner::gobjects::{validate_gobjects, Validation};
use ue5_dumper::scanner::image::find_text_section;
use ue5_dumper::scanner::pattern::{resolve_rip_relative, scan_pattern, CHUNK_SIZE};
use ue5_dumper::scanner::{
    scan, validate_gnames, validate_gworld, EngineLayout, ScanFailure, ScanProgress, ScanResults,
    Scanned,
};
use ue5_dumper::search::{
    find_instance, resolve_static, search_objects, InstanceWalk, LabelCache, SearchWalk,
};
use ue5_dumper::ue::fname::{
    try_decode_none, Candidate, FNamePool, NameFormat, Route, MAX_ENTRY_SIZE,
};
use ue5_dumper::ue::objects::{read_u64_le, GObjects, ObjectWalk};
use ue5_dumper::ue::props::{
    dump_classes, dump_enums, get_cached_name, single_bit, ClassDump, ClassWalk, EnumDump,
    EnumWalk, NameCache,
};

const BASE: u64 = 0x1_4000_0000;
const TEXT: u64 = BASE + 0x1000;
const TEXT_SIZE: u64 = 0x1000;
const GNAMES: u64 = BASE + 0x3000;
const GOBJECTS: u64 = BASE + 0x3100;
const GWORLD: u64 = BASE + 0x3200;
const BLOCK0: u64 = 0x5_0000_0000;
const BLOCK_SIZE: u64 = 0xFFFF * 2 + MAX_ENTRY_SIZE as u64;
const ALIGNED: EngineLayout = EngineLayout { fuobject_item_size: 0x20 };

/// The memory of a game that runs nowhere.
struct Game {
    pages: BTreeMap<u64, Vec<u8>>,
    next_name: u64,
    names: BTreeMap<String, u32>,
    next_heap: u64,
}

impl Game {
    fn empty() -> Self {
        Game {
            pages: BTreeMap::new(),
            next_name: 6,
            names: BTreeMap::new(),
            next_heap: 0x6_0000_0000,
        }
    }

    /// A game with a name pool whose allocator stands at GNAMES.
    fn with_names() -> Self {
        let mut game = Game::empty();
        game.map(BLOCK0, BLOCK_SIZE);
        game.u64(GNAMES + 0x10, BLOCK0);
        game.bytes(BLOCK0, &[0x00, 0x01, b'N', b'o', b'n', b'e']);
        game.names.insert("None".to_string(), 0);
        game
    }

    fn map(&mut self, addr: u64, len: u64) {
        for page in addr / 4096..=(addr + len - 1) / 4096 {
            self.pages.entry(page).or_insert_with(|| vec![0; 4096]);
        }
    }

    fn bytes(&mut self, addr: u64, data: &[u8]) {
        for (i, b) in data.iter().enumerate() {
            let a = addr + i as u64;
            let page = self.pages.entry(a / 4096).or_insert_with(|| vec![0; 4096]);
            page[(a % 4096) as usize] = *b;
        }
    }

    fn u64(&mut self, addr: u64, v: u64) {
        self.bytes(addr, &v.to_le_bytes());
    }

    fn u32(&mut self, addr: u64, v: u32) {
        self.bytes(addr, &v.to_le_bytes());
    }

    fn f64(&mut self, addr: u64, v: f64) {
        self.bytes(addr, &v.to_le_bytes());
    }

    /// Room for an object.
    fn room(&mut self, len: u64) -> u64 {
        let addr = self.next_heap;
        self.next_heap += (len + 0xFFF) / 0x1000 * 0x1000;
        self.map(addr, len);
        addr
    }

    /// The index of a name, which is written if it is not there yet.
    fn name(&mut self, text: &str) -> u32 {
        if let Some(idx) = self.names.get(text) {
            return *idx;
        }
        let at = self.next_name;
        let header = ((text.len() as u16) << 6).to_le_bytes();
        self.bytes(BLOCK0 + at, &header);
        self.bytes(BLOCK0 + at + 2, text.as_bytes());
        self.next_name = (at + 2 + text.len() as u64 + 1) / 2 * 2;
        let idx = (at / 2) as u32;
        self.names.insert(text.to_string(), idx);
        idx
    }

    /// An object of this class, name and outer object.
    fn object(&mut self, class: u64, name: &str, outer: u64) -> u64 {
        let addr = self.room(0x2000);
        let idx = self.name(name);
        self.u64(addr + 0x10, class);
        self.u32(addr + 0x18, idx);
        self.u64(addr + 0x20, outer);
        addr
    }

    /// An object array at GOBJECTS with these objects and room for `count`.
    fn object_array(&mut self, objects: &[u64], count: u32, stride: u64) {
        self.object_array_at(GOBJECTS, objects, count, stride);
    }

    fn object_array_at(&mut self, addr: u64, objects: &[u64], count: u32, stride: u64) {
        let chunk0 = self.room(count as u64 * stride);
        let chunks = self.room(8);
        for (i, obj) in objects.iter().enumerate() {
            self.u64(chunk0 + i as u64 * stride, *obj);
        }
        self.u64(chunks, chunk0);
        self.u64(addr, chunks);
        self.u32(addr + 0x14, count);
    }

    /// A field class of this name.
    fn field_class(&mut self, name: &str) -> u64 {
        let addr = self.room(0x10);
        let idx = self.name(name);
        self.u32(addr, idx);
        addr
    }

    /// A property that is put in front of `next`.
    fn property(&mut self, kind: &str, name: &str, offset: u32, size: u32, next: u64) -> u64 {
        let class = self.field_class(kind);
        let addr = self.room(0x80);
        let idx = self.name(name);
        self.u64(addr + 0x08, class);
        self.u64(addr + 0x18, next);
        self.u32(addr + 0x20, idx);
        self.u32(addr + 0x30, 1);
        self.u32(addr + 0x34, size);
        self.u32(addr + 0x44, offset);
        addr
    }

    fn fstring(&mut self, addr: u64, text: &str) {
        let units: Vec<u16> = text.encode_utf16().chain(std::iter::once(0)).collect();
        let data = self.room(units.len() as u64 * 2);
        for (i, u) in units.iter().enumerate() {
            self.bytes(data + 2 * i as u64, &u.to_le_bytes());
        }
        self.u64(addr, data);
        self.u32(addr + 8, units.len() as u32);
    }

    /// A PE image whose .text section holds `code`.
    fn image(&mut self, code: &[u8]) {
        self.map(BASE, 0x4000);
        self.u32(BASE + 0x3C, 0x80);
        self.u32(BASE + 0x80, 0x4550);
        self.bytes(BASE + 0x86, &[2, 0]);
        self.bytes(BASE + 0x94, &[0xF0, 0]);
        let headers = BASE + 0x80 + 0x18 + 0xF0;
        self.bytes(headers, b".rdata\0\0");
        self.bytes(headers + 40, b".text\0\0\0");
        self.u32(headers + 40 + 0x08, TEXT_SIZE as u32);
        self.u32(headers + 40 + 0x0C, 0x1000);
        self.bytes(TEXT, code);
    }

    fn fetch(&self, proc: &mut ProcessHandle, read: Missing) {
        let wanted = proc.missing_pages(read);
        assert!(!wanted.is_empty());
        for page in wanted {
            proc.insert_page(page, self.pages.get(&page).cloned());
        }
    }
}

/// Run a computation until all its reads are answered.
fn drive<T>(game: &Game, proc: &mut ProcessHandle, mut f: impl FnMut(&ProcessHandle) -> Outcome<T>) -> T {
    loop {
        match f(proc) {
            Ok(answer) => return answer,
            Err(read) => game.fetch(proc, read),
        }
    }
}

fn attach() -> ProcessHandle {
    ProcessHandle::new(42, BASE)
}

fn pool(game: &Game, proc: &mut ProcessHandle) -> FNamePool {
    drive(game, proc, |p| FNamePool::with_addr(p, GNAMES)).expect("a name pool")
}

fn resolve(game: &Game, proc: &mut ProcessHandle, names: &mut FNamePool, idx: u32, num: u32) -> Option<String> {
    drive(game, proc, |p| names.resolve_index(p, idx, num))
}

/// `opcode` with a displacement to `target`, at `at`.
fn rip(opcode: [u8; 3], at: u64, target: u64) -> Vec<u8> {
    let disp = target.wrapping_sub(at + 7) as u32;
    let mut out = opcode.to_vec();
    out.extend_from_slice(&disp.to_le_bytes());
    out
}

// ── Memory ──────────────────────────────────────────────────────────

#[test]
fn a_read_that_is_not_known_is_asked_for() {
    let proc = attach();
    assert_eq!(proc.read::<u32>(0x1FFE), Err(Missing { addr: 0x1FFE, len: 4 }));
    assert_eq!(proc.missing_pages(Missing { addr: 0x1FFE, len: 4 }), vec![1, 2]);
    assert_eq!(proc.missing_pages(Missing { addr: 0x1FFE, len: 0 }), Vec::<u64>::new());
    assert_eq!(proc.missing_pages(Missing { addr: u64::MAX, len: 9 }), vec![u64::MAX / 4096]);
}

#[test]
fn reads_give_the_bytes_that_were_fetched() {
    let mut proc = attach();
    let mut low = vec![0u8; 4096];
    low[4094] = 0x11;
    low[4095] = 0x22;
    let mut high = vec![0u8; 4096];
    high[0] = 0x33;
    high[1] = 0x44;
    high[2] = 0xFF;
    proc.insert_page(1, Some(low));
    assert_eq!(proc.missing_pages(Missing { addr: 0x1FFE, len: 4 }), vec![2]);
    proc.insert_page(2, Some(high));
    assert_eq!(proc.read::<u32>(0x1FFE), Ok(Some(0x4433_2211)));
    assert_eq!(proc.read::<u16>(0x1FFE), Ok(Some(0x2211)));
    assert_eq!(proc.read::<u8>(0x1FFF), Ok(Some(0x22)));
    assert_eq!(proc.read_bytes(0x1FFF, 3), Ok(Some(vec![0x22, 0x33, 0x44])));
    assert_eq!(proc.read_bytes(0x1FFF, 0), Ok(Some(vec![])));
    // The first answer for a page stands.
    proc.insert_page(2, None);
    assert_eq!(proc.read::<u8>(0x2000), Ok(Some(0x33)));
    assert_eq!(proc.read_or::<u8>(0x2000, 9), Ok(0x33));
}

#[test]
fn signed_numbers_and_pointers() {
    let mut proc = attach();
    let mut page = vec![0xFFu8; 16];
    page.extend_from_slice(&0x1234_5678_9ABC_DEF0u64.to_le_bytes());
    page.extend_from_slice(&[0; 8]);
    proc.insert_page(0, Some(page));
    assert_eq!(proc.read::<i32>(0), Ok(Some(-1)));
    assert_eq!(proc.read::<i64>(0), Ok(Some(-1)));
    assert_eq!(proc.read::<i64>(16), Ok(Some(0x1234_5678_9ABC_DEF0)));
    assert_eq!(proc.read::<u64>(0), Ok(Some(u64::MAX)));
    assert_eq!(proc.ptr(16), Ok(Some(0x1234_5678_9ABC_DEF0)));
    assert_eq!(proc.ptr(24), Ok(None));
    assert_eq!(read_u64_le(&[1, 2, 0, 0, 0, 0, 0, 0x80, 99]), 0x8000_0000_0000_0201);
}

#[test]
fn bytes_that_cannot_be_read_give_nothing() {
    let mut proc = attach();
    proc.insert_page(0, Some(vec![7; 10]));
    proc.insert_page(1, None);
    assert_eq!(proc.read::<u64>(2), Ok(Some(0x0707_0707_0707_0707)));
    assert_eq!(proc.read::<u64>(3), Ok(None));
    assert_eq!(proc.read_or::<u32>(4096, 5), Ok(5));
    assert_eq!(proc.read::<u64>(u64::MAX - 3), Ok(None));
}

// ── Names ───────────────────────────────────────────────────────────

#[test]
fn the_first_entry_says_none() {
    assert!(try_decode_none(&[0x00, 0x01, b'N', b'o', b'n', b'e'], 0, 6));
    assert!(try_decode_none(&[9, 9, 9, 9, 8, 0, b'N', b'o', b'n', b'e'], 4, 1));
    assert!(!try_decode_none(&[0x00, 0x01, b'N', b'o', b'n'], 0, 6));
    assert!(!try_decode_none(&[0x40, 0x01, b'N', b'o', b'n', b'e'], 0, 6));
    assert!(!try_decode_none(&[0x00, 0x01, b'n', b'o', b'n', b'e'], 0, 6));
    assert!(!try_decode_none(&[], 0, 6));
}

#[test]
fn names_are_resolved() {
    let mut game = Game::with_names();
    let actor = game.name("Actor");
    let mut proc = attach();
    let mut names = pool(&game, &mut proc);
    assert_eq!(names.source(), Candidate { route: Route::Direct, base: GNAMES });
    assert_eq!(names.format(), NameFormat::Shipping);
    assert!(drive(&game, &mut proc, |p| names.validate(p)));
    assert_eq!(resolve(&game, &mut proc, &mut names, 0, 0).as_deref(), Some("None"));
    assert_eq!(resolve(&game, &mut proc, &mut names, actor, 0).as_deref(), Some("Actor"));
    assert_eq!(resolve(&game, &mut proc, &mut names, actor, 1).as_deref(), Some("Actor_0"));
    assert_eq!(resolve(&game, &mut proc, &mut names, actor, 1024).as_deref(), Some("Actor_1023"));
    // No entry, and no block.
    assert_eq!(resolve(&game, &mut proc, &mut names, 0xF000, 0), None);
    assert_eq!(resolve(&game, &mut proc, &mut names, 0x10000, 0), None);
    assert_eq!(resolve(&game, &mut proc, &mut names, 0x7FFF_0000, 0), None);
}

#[test]
fn wide_and_broken_names_are_resolved() {
    let mut game = Game::with_names();
    // "Ж!" in UTF-16, with the lowest header bit set.
    game.bytes(BLOCK0 + 0x100, &[0x81, 0x00, 0x16, 0x04, 0x21, 0x00]);
    // A lone surrogate.
    game.bytes(BLOCK0 + 0x110, &[0x41, 0x00, 0x00, 0xD8]);
    // A byte that is no UTF-8.
    game.bytes(BLOCK0 + 0x120, &[0x80, 0x00, b'x', 0xFF]);
    // Two bytes of UTF-8.
    game.bytes(BLOCK0 + 0x130, &[0x80, 0x00, 0xC3, 0xA4]);
    let mut proc = attach();
    let mut names = pool(&game, &mut proc);
    assert_eq!(resolve(&game, &mut proc, &mut names, 0x80, 0).as_deref(), Some("Ж!"));
    assert_eq!(resolve(&game, &mut proc, &mut names, 0x88, 0).as_deref(), Some("\u{FFFD}"));
    assert_eq!(resolve(&game, &mut proc, &mut names, 0x90, 0).as_deref(), Some("x\u{FFFD}"));
    assert_eq!(resolve(&game, &mut proc, &mut names, 0x98, 0).as_deref(), Some("ä"));
}

#[test]
fn the_longest_wide_name_fits_at_the_last_offset() {
    let units = [0x0416u16; 1023];
    let bytes: Vec<u8> = units.iter().flat_map(|u| u.to_le_bytes()).collect();
    let mut game = Game::with_names();
    game.bytes(BLOCK0 + 0xFFFF * 2, &((1023u16 << 6) | 1).to_le_bytes());
    game.bytes(BLOCK0 + 0xFFFF * 2 + 2, &bytes);
    let mut proc = attach();
    let mut names = pool(&game, &mut proc);
    let name = resolve(&game, &mut proc, &mut names, 0xFFFF, 0);
    assert_eq!(name, Some("Ж".repeat(1023)));
}

#[test]
fn an_fname_struct_is_resolved() {
    let mut game = Game::with_names();
    let idx = game.name("World");
    let at = game.room(0x10);
    game.u32(at, idx);
    game.u32(at + 4, 3);
    let mut proc = attach();
    let mut names = pool(&game, &mut proc);
    assert_eq!(drive(&game, &mut proc, |p| names.resolve(p, at)).as_deref(), Some("World_2"));
    assert_eq!(drive(&game, &mut proc, |p| names.resolve(p, 0x10)), None);
}

#[test]
fn a_cached_block_outlives_the_process() {
    let mut game = Game::with_names();
    let idx = game.name("World");
    let mut proc = attach();
    let mut names = pool(&game, &mut proc);
    assert_eq!(resolve(&game, &mut proc, &mut names, idx, 0).as_deref(), Some("World"));
    // Nothing can be read any more.
    let gone = Game::empty();
    let mut proc = attach();
    assert_eq!(resolve(&gone, &mut proc, &mut names, idx, 2).as_deref(), Some("World_1"));
    assert_eq!(resolve(&gone, &mut proc, &mut names, 0x1_0000, 0), None);
    // A pool that has not read the block has nothing to go by.
    let mut fresh = pool(&game, &mut attach());
    assert_eq!(resolve(&gone, &mut attach(), &mut fresh, idx, 0), None);
}

#[test]
fn case_preserving_names_are_resolved() {
    let mut game = Game::empty();
    game.map(BLOCK0, 0xFFFF * 4 + MAX_ENTRY_SIZE as u64);
    game.u64(GNAMES + 0x10, BLOCK0);
    game.bytes(BLOCK0, &[1, 0, 0, 0, 8, 0, b'N', b'o', b'n', b'e']);
    game.bytes(BLOCK0 + 12, &[2, 0, 0, 0, 10, 0, b'C', b'l', b'a', b's', b's']);
    let mut proc = attach();
    let mut names = pool(&game, &mut proc);
    assert_eq!(names.format(), NameFormat::CasePreserving);
    assert!(drive(&game, &mut proc, |p| names.validate(p)));
    assert_eq!(resolve(&game, &mut proc, &mut names, 3, 0).as_deref(), Some("Class"));
}

#[test]
fn the_allocator_is_found_behind_a_pointer_or_shards() {
    let mut game = Game::empty();
    game.map(BLOCK0, BLOCK_SIZE);
    game.bytes(BLOCK0, &[0x00, 0x01, b'N', b'o', b'n', b'e']);
    let allocator = game.room(0x20);
    game.u64(allocator + 0x10, BLOCK0);
    game.u64(GNAMES, allocator);
    let mut proc = attach();
    let names = pool(&game, &mut proc);
    assert_eq!(names.source(), Candidate { route: Route::Dereferenced, base: allocator });

    let mut shards = Game::empty();
    shards.map(BLOCK0, BLOCK_SIZE);
    shards.bytes(BLOCK0, &[0x00, 0x01, b'N', b'o', b'n', b'e']);
    shards.u64(GNAMES + 0x40 + 0x10, BLOCK0);
    let mut proc = attach();
    let names = pool(&shards, &mut proc);
    assert_eq!(names.source(), Candidate { route: Route::PoolOffset(0x40), base: GNAMES + 0x40 });

    let mut both = Game::empty();
    both.map(BLOCK0, BLOCK_SIZE);
    both.bytes(BLOCK0, &[0x00, 0x01, b'N', b'o', b'n', b'e']);
    let behind = both.room(0x1000);
    both.u64(GNAMES, behind);
    both.u64(behind + 0x18 + 0x10, BLOCK0);
    let mut proc = attach();
    let names = pool(&both, &mut proc);
    assert_eq!(names.source(), Candidate { route: Route::DerefOffset(0x18), base: behind + 0x18 });

    let nothing = Game::empty();
    let mut proc = attach();
    assert!(drive(&nothing, &mut proc, |p| FNamePool::with_addr(p, GNAMES)).is_none());
}

#[test]
fn block_pointers_end_at_two_nulls() {
    let mut game = Game::with_names();
    let block1 = 0x5_1000_0000u64;
    let block5 = 0x5_2000_0000u64;
    game.map(block1, BLOCK_SIZE);
    game.map(block5, BLOCK_SIZE);
    game.bytes(block1, &[0x40, 0x00, b'Q']);
    game.bytes(block5, &[0x40, 0x00, b'R']);
    game.u64(GNAMES + 0x10 + 8, block1);
    game.u64(GNAMES + 0x10 + 5 * 8, block5);
    let mut proc = attach();
    let mut names = pool(&game, &mut proc);
    assert_eq!(resolve(&game, &mut proc, &mut names, 0x1_0000, 0).as_deref(), Some("Q"));
    // Blocks 2 and 3 are null, so block 5 is not looked at.
    assert_eq!(resolve(&game, &mut proc, &mut names, 0x5_0000, 0), None);
}

// ── Objects ─────────────────────────────────────────────────────────

#[test]
fn full_names_go_from_the_outside_in() {
    let mut game = Game::with_names();
    let package = game.object(0, "Engine", 0);
    let class = game.object(0, "PlayerController", package);
    let func = game.object(0, "Possess", class);
    let nameless = game.object(0, "x", 0);
    game.u32(nameless + 0x18, 0xF000);
    let inner = game.object(0, "Inner", nameless);
    let ring = game.object(0, "R", 0);
    game.u64(ring + 0x20, ring);
    let mut proc = attach();
    let mut names = pool(&game, &mut proc);
    let all = GObjects { objects: Vec::new() };
    let mut full = |addr: u64| drive(&game, &mut proc, |p| all.full_name(p, &mut names, addr));
    assert_eq!(full(func).as_deref(), Some("Engine.PlayerController.Possess"));
    assert_eq!(full(package).as_deref(), Some("Engine"));
    assert_eq!(full(0).as_deref(), Some(""));
    assert_eq!(full(inner), None);
    assert_eq!(full(0x40), None);
    // A circle of outer objects is cut off.
    assert_eq!(full(ring).map(|s| s.len()), Some(32 + 31));
}

#[test]
fn the_object_array_is_read() {
    let mut game = Game::with_names();
    let class = game.object(0, "Class", 0);
    let one = game.object(class, "One", 0);
    let two = game.object(class, "Two", one);
    game.object_array(&[one, 0, two, 0x50], 5, 0x20);
    let mut proc = attach();
    let mut names = pool(&game, &mut proc);
    let mut walk = ObjectWalk::new();
    let all = drive(&game, &mut proc, |p| GObjects::with_addr(p, GOBJECTS, ALIGNED, &mut walk)).unwrap();
    // The null item and the one that cannot be read are left out.
    assert_eq!(all.objects.len(), 2);
    assert_eq!(all.objects[0].addr, one);
    assert_eq!(all.objects[1].addr, two);
    assert_eq!(all.objects[1].class_addr, class);
    assert_eq!(all.objects[1].outer_addr, one);
    let shown = drive(&game, &mut proc, |p| all.validate(p, &mut names));
    assert_eq!(shown, vec!["One", "Two"]);
}

#[test]
fn the_object_array_is_read_with_another_stride() {
    let mut game = Game::with_names();
    let one = game.object(0, "One", 0);
    let two = game.object(0, "Two", 0);
    game.object_array(&[one, two], 2, 0x18);
    let mut proc = attach();
    let layout = EngineLayout { fuobject_item_size: 0x18 };
    let mut walk = ObjectWalk::new();
    let all =
        drive(&game, &mut proc, |p| GObjects::with_addr(p, GOBJECTS, layout, &mut walk)).unwrap();
    assert_eq!(all.objects.iter().map(|o| o.addr).collect::<Vec<_>>(), vec![one, two]);
}

#[test]
fn object_arrays_of_strange_lengths_are_refused() {
    for count in [0u32, 10_000_001, u32::MAX] {
        let mut game = Game::with_names();
        game.object_array(&[], 1, 0x20);
        game.u32(GOBJECTS + 0x14, count);
        let mut proc = attach();
        let mut walk = ObjectWalk::new();
        assert!(drive(&game, &mut proc, |p| GObjects::with_addr(p, GOBJECTS, ALIGNED, &mut walk)).is_none());
    }
}

#[test]
fn objects_of_later_chunks_are_read() {
    let mut game = Game::with_names();
    let one = game.object(0, "One", 0);
    let last = game.object(0, "Last", 0);
    let chunks = game.room(16);
    let chunk1 = game.room(2 * 0x20);
    game.u64(chunk1 + 0x20, last);
    game.u64(chunk1, one);
    // The first chunk is null.
    game.u64(chunks + 8, chunk1);
    game.u64(GOBJECTS, chunks);
    game.u32(GOBJECTS + 0x14, 65536 + 2);
    let mut proc = attach();
    let mut walk = ObjectWalk::new();
    let all = drive(&game, &mut proc, |p| GObjects::with_addr(p, GOBJECTS, ALIGNED, &mut walk)).unwrap();
    assert_eq!(all.objects.iter().map(|o| o.addr).collect::<Vec<_>>(), vec![one, last]);
}

#[test]
fn cached_object_names_come_back() {
    let mut game = Game::with_names();
    let class = game.object(0, "Class", 0);
    let mut proc = attach();
    let mut names = pool(&game, &mut proc);
    let mut cache = NameCache::new();
    for _ in 0..2 {
        let name =
            drive(&game, &mut proc, |p| get_cached_name(p, &mut names, &mut cache, class));
        assert_eq!(name.as_deref(), Some("Class"));
    }
    assert_eq!(drive(&game, &mut proc, |p| get_cached_name(p, &mut names, &mut cache, 0)), None);
    assert_eq!(drive(&game, &mut proc, |p| get_cached_name(p, &mut names, &mut cache, 8)), None);
}

// ── Dumps ───────────────────────────────────────────────────────────

/// A game with a class, a struct, an enum and an ordinary object.
fn sdk() -> Game {
    let mut game = Game::with_names();
    let class_class = game.object(0, "Class", 0);
    let struct_class = game.object(0, "ScriptStruct", 0);
    let enum_class = game.object(0, "Enum", 0);
    let function_class = game.object(0, "Function", 0);
    let other_class = game.object(0, "Other", 0);
    let package = game.object(other_class, "/Script/Engine", 0);

    let vector = game.object(struct_class, "Vector", package);
    let x = game.property("DoubleProperty", "X", 0, 8, 0);
    game.u64(vector + 0x50, x);
    game.u32(vector + 0x58, 24);

    let controller = game.object(class_class, "Controller", package);
    let player = game.object(class_class, "PlayerController", package);
    game.u64(player + 0x40, controller);
    game.u32(player + 0x58, 2032);

    let state = game.object(enum_class, "EState", package);

    // The properties, last one first.
    let odd = game.property("WhateverProperty", "Odd", 90, 1, 0);
    let set = game.property("SetProperty", "Tags", 88, 80, odd);
    let set_item = game.property("NameProperty", "Item", 0, 8, 0);
    game.u64(set + 0x70, set_item);
    let map = game.property("MapProperty", "Scores", 80, 80, set);
    let key = game.property("NameProperty", "Key", 0, 8, 0);
    game.u64(map + 0x70, key);
    let array = game.property("ArrayProperty", "Items", 72, 16, map);
    let item = game.property("IntProperty", "Item", 0, 4, 0);
    game.u64(array + 0x70, item);
    let mode = game.property("EnumProperty", "Mode", 64, 1, array);
    game.u64(mode + 0x78, state);
    let whole = game.property("BoolProperty", "bWhole", 57, 1, mode);
    game.bytes(whole + 0x73, &[0xFF]);
    let bit = game.property("BoolProperty", "bBit", 56, 1, whole);
    game.bytes(bit + 0x73, &[0x10]);
    let pos = game.property("StructProperty", "Pos", 32, 24, bit);
    game.u64(pos + 0x70, vector);
    let pawn = game.property("ObjectProperty", "Pawn", 24, 8, pos);
    game.u64(pawn + 0x70, controller);
    game.u64(player + 0x50, pawn);

    // The functions: one, and a field that is none.
    let field = game.object(other_class, "NotAFunction", player);
    let func = game.object(function_class, "Possess", player);
    game.u64(func + 0x28, field);
    game.u32(func + 0xB0, 0x402);
    game.u64(func + 0xD8, BASE + 0x1234);
    let arg = game.property("ObjectProperty", "InPawn", 0, 8, 0);
    game.u64(func + 0x50, arg);
    game.u64(player + 0x48, func);

    // The variants of the enum; the second one has no name.
    let data = game.room(3 * 16);
    let idle = game.name("EState::Idle");
    let max = game.name("EState::Max");
    game.u32(data, idle);
    game.u32(data + 16, 0xF000);
    game.u32(data + 32, max);
    game.u64(data + 40, (-1i64) as u64);
    game.u64(state + 0x40, data);
    game.u32(state + 0x48, 3);
    let empty = game.object(enum_class, "EEmpty", package);

    game.object_array(
        &[class_class, package, vector, controller, player, state, empty, field],
        8,
        0x20,
    );
    game
}

fn classes(game: &Game, filter: Option<&str>) -> Vec<ClassDump> {
    let mut proc = attach();
    let mut names = pool(game, &mut proc);
    let mut walk = ObjectWalk::new();
    let all = drive(game, &mut proc, |p| GObjects::with_addr(p, GOBJECTS, ALIGNED, &mut walk)).unwrap();
    let mut walk = ClassWalk::new();
    drive(game, &mut proc, |p| dump_classes(p, &mut names, &all, filter, &mut walk))
}

fn enums(game: &Game, filter: Option<&str>) -> Vec<EnumDump> {
    let mut proc = attach();
    let mut names = pool(game, &mut proc);
    let mut walk = ObjectWalk::new();
    let all = drive(game, &mut proc, |p| GObjects::with_addr(p, GOBJECTS, ALIGNED, &mut walk)).unwrap();
    let mut walk = EnumWalk::new();
    drive(game, &mut proc, |p| dump_enums(p, &mut names, &all, filter, &mut walk))
}

#[test]
fn classes_are_dumped() {
    let dump = classes(&sdk(), None);
    assert_eq!(
        dump.iter().map(|c| c.name.as_str()).collect::<Vec<_>>(),
        vec!["Vector", "Controller", "PlayerController"]
    );
    assert_eq!(dump[0].size, 24);
    assert_eq!(dump[0].parent, None);
    assert_eq!(dump[0].properties.len(), 1);
    assert_eq!(dump[0].properties[0].prop_type, "DoubleProperty");
    let player = &dump[2];
    assert_eq!(player.full_name, "/Script/Engine.PlayerController");
    assert_eq!(player.parent.as_deref(), Some("Controller"));
    assert_eq!(player.size, 2032);
    let shown: Vec<(&str, &str, u32, u32, Option<&str>)> = player
        .properties
        .iter()
        .map(|p| (p.name.as_str(), p.prop_type.as_str(), p.offset, p.size, p.inner_type.as_deref()))
        .collect();
    assert_eq!(
        shown,
        vec![
            ("Pawn", "ObjectProperty", 24, 8, Some("Controller")),
            ("Pos", "StructProperty", 32, 24, Some("Vector")),
            ("bBit", "BoolProperty", 56, 1, None),
            ("bWhole", "BoolProperty", 57, 1, None),
            ("Mode", "EnumProperty", 64, 1, Some("EState")),
            ("Items", "ArrayProperty", 72, 16, Some("IntProperty")),
            ("Scores", "MapProperty", 80, 80, Some("NameProperty -> ?")),
            ("Tags", "SetProperty", 88, 80, Some("NameProperty")),
            ("Odd", "WhateverProperty", 90, 1, None),
        ]
    );
    assert_eq!(player.properties[2].bit_index, Some(4));
    assert_eq!(player.properties[2].field_mask, Some(0x10));
    assert_eq!(player.properties[3].bit_index, None);
    assert_eq!(player.properties[3].field_mask, Some(0xFF));
    assert_eq!(player.properties[0].field_mask, None);
    assert!(player.properties.iter().all(|p| p.array_dim == 1));
    assert_eq!(player.functions.len(), 1);
    let func = &player.functions[0];
    assert_eq!(func.name, "Possess");
    assert_eq!(func.full_name, "/Script/Engine.PlayerController.Possess");
    assert_eq!(func.flags, 0x402);
    assert_eq!(func.native_func, BASE + 0x1234);
    assert_eq!(func.params.len(), 1);
    assert_eq!(func.params[0].name, "InPawn");
    assert_eq!(func.params[0].inner_type, None);
}

#[test]
fn a_filter_leaves_classes_out_and_changes_none() {
    let game = sdk();
    let all = classes(&game, None);
    let some = classes(&game, Some("Controller"));
    assert_eq!(
        some.iter().map(|c| c.name.as_str()).collect::<Vec<_>>(),
        vec!["Controller", "PlayerController"]
    );
    let kept: Vec<String> = all
        .iter()
        .filter(|c| c.name.contains("Controller") || c.full_name.contains("Controller"))
        .map(|c| format!("{c:?}"))
        .collect();
    assert_eq!(some.iter().map(|c| format!("{c:?}")).collect::<Vec<_>>(), kept);
    // The full path counts too.
    assert_eq!(classes(&game, Some("/Script")).len(), 3);
    assert_eq!(classes(&game, Some("controller")).len(), 0);
    assert_eq!(classes(&game, Some("")).len(), 3);
}

#[test]
fn enums_are_dumped() {
    let game = sdk();
    let dump = enums(&game, None);
    assert_eq!(dump.len(), 1);
    assert_eq!(dump[0].name, "EState");
    assert_eq!(dump[0].full_name, "/Script/Engine.EState");
    assert_eq!(
        dump[0].variants.iter().map(|v| (v.name.as_str(), v.value)).collect::<Vec<_>>(),
        vec![("EState::Idle", 0), ("EState::Max", -1)]
    );
    assert_eq!(enums(&game, Some("State")).len(), 1);
    assert_eq!(enums(&game, Some("Vector")).len(), 0);
}

#[test]
fn enums_with_too_many_variants_are_left_out() {
    let mut game = sdk();
    let (state, _) = {
        let mut proc = attach();
        let mut walk = ObjectWalk::new();
        let all = drive(&game, &mut proc, |p| GObjects::with_addr(p, GOBJECTS, ALIGNED, &mut walk)).unwrap();
        (all.objects[5].addr, 0)
    };
    game.u32(state + 0x48, 1025);
    assert_eq!(enums(&game, None).len(), 0);
}

#[test]
fn a_circle_of_properties_is_cut_off() {
    let mut game = Game::with_names();
    let class_class = game.object(0, "Class", 0);
    let class = game.object(class_class, "Loop", 0);
    let prop = game.property("IntProperty", "A", 0, 4, 0);
    game.u64(prop + 0x18, prop);
    game.u64(class + 0x50, prop);
    game.object_array(&[class], 1, 0x20);
    let dump = classes(&game, None);
    assert_eq!(dump.len(), 1);
    assert_eq!(dump[0].properties.len(), 4096);
}

#[test]
fn a_class_without_a_full_name_goes_by_its_name() {
    let mut game = Game::with_names();
    let class_class = game.object(0, "Class", 0);
    let nameless = game.object(0, "x", 0);
    game.u32(nameless + 0x18, 0xF000);
    let class = game.object(class_class, "Lost", nameless);
    game.object_array(&[class, nameless], 2, 0x20);
    let dump = classes(&game, Some("Lost"));
    assert_eq!(dump.len(), 1);
    assert_eq!(dump[0].full_name, "Lost");
    assert_eq!(dump[0].properties.len(), 0);
}

#[test]
fn masks_with_one_bit_have_a_bit() {
    for bit in 0..8u8 {
        assert_eq!(single_bit(1 << bit), Some(bit));
    }
    assert_eq!(single_bit(0), None);
    assert_eq!(single_bit(0xFF), None);
    assert_eq!(single_bit(0x11), None);
}

// ── Scanner ─────────────────────────────────────────────────────────

#[test]
fn offsets_are_relative_to_the_base() {
    let found = ScanResults {
        gnames: GNAMES,
        gobjects: GOBJECTS,
        gworld: BASE - 1,
        layout: EngineLayout { fuobject_item_size: 0x18 },
    };
    let (names, objects, world) = found.offsets(BASE);
    assert_eq!(names, 0x3000);
    assert_eq!(objects, 0x3100);
    assert_eq!(world, u64::MAX);
    assert_eq!(BASE.wrapping_add(world), found.gworld);
}

#[test]
fn the_text_section_is_found() {
    let mut game = Game::empty();
    game.image(&[]);
    let mut proc = attach();
    assert_eq!(drive(&game, &mut proc, find_text_section), Some((TEXT, TEXT_SIZE)));

    game.bytes(BASE + 0x80 + 0x18 + 0xF0 + 40, b".textbss");
    let mut proc = attach();
    assert_eq!(drive(&game, &mut proc, find_text_section), None);

    let mut other = Game::empty();
    other.image(&[]);
    other.u32(BASE + 0x80, 0x464C_457F);
    let mut proc = attach();
    assert_eq!(drive(&other, &mut proc, find_text_section), None);
}

const LOADED: u64 = 0x5555_5555_4000;

/// An ELF image that is linked to start at `linked` and loaded at LOADED, with a .text
/// section of 0x2345 bytes at +0x1100.
fn elf(linked: u64) -> Game {
    let mut game = Game::empty();
    game.map(LOADED, 0x3000);
    game.bytes(LOADED, b"\x7FELF\x02\x01\x01");
    game.u64(LOADED + 0x20, 0x40);
    game.u64(LOADED + 0x28, 0x2000);
    // Sizes and numbers of the headers, and which section holds the names.
    for (at, v) in [(0x36, 56u16), (0x38, 2), (0x3A, 64), (0x3C, 4), (0x3E, 3)] {
        game.bytes(LOADED + at, &v.to_le_bytes());
    }
    game.u32(LOADED + 0x40, 6);
    game.u64(LOADED + 0x40 + 0x10, 0x40);
    game.u32(LOADED + 0x40 + 56, 1);
    game.u64(LOADED + 0x40 + 56 + 0x10, linked + 0x10);
    let names = b"\0.shstrtab\0.text.hot\0.text\0";
    game.bytes(LOADED + 0x1F00, names);
    let section = |game: &mut Game, i: u64, name: u32, addr: u64, offset: u64, size: u64| {
        let at = LOADED + 0x2000 + 64 * i;
        game.u32(at, name);
        game.u64(at + 0x10, addr);
        game.u64(at + 0x18, offset);
        game.u64(at + 0x20, size);
    };
    section(&mut game, 1, 11, linked + 0x1000, 0x1000, 0x100);
    section(&mut game, 2, 21, linked + 0x1100, 0x1100, 0x2345);
    section(&mut game, 3, 1, 0, 0x1F00, names.len() as u64);
    game
}

fn elf_text(game: &Game) -> Option<(u64, u64)> {
    drive(game, &mut ProcessHandle::new(42, LOADED), find_text_section)
}

#[test]
fn the_text_section_of_an_elf_image_is_found() {
    // Linked at zero, at where it is loaded, and somewhere else.
    for linked in [0, LOADED, 0x40_0000] {
        assert_eq!(elf_text(&elf(linked)), Some((LOADED + 0x1100, 0x2345)));
    }
    // No segment is loaded: the addresses count from the base.
    let mut game = elf(0);
    game.u32(LOADED + 0x40 + 56, 7);
    assert_eq!(elf_text(&game), Some((LOADED + 0x1100, 0x2345)));
}

#[test]
fn an_elf_image_without_a_text_section() {
    // A 32-bit image.
    let mut game = elf(0);
    game.bytes(LOADED + 4, &[1]);
    assert_eq!(elf_text(&game), None);
    // No section holds the names.
    let mut game = elf(0);
    game.bytes(LOADED + 0x3E, &[0]);
    assert_eq!(elf_text(&game), None);
    let mut game = elf(0);
    game.bytes(LOADED + 0x3E, &[4]);
    assert_eq!(elf_text(&game), None);
    // No section has the name.
    let mut game = elf(0);
    game.u32(LOADED + 0x2000 + 64 * 2, 12);
    assert_eq!(elf_text(&game), None);
    // The section headers cannot be read.
    let mut game = elf(0);
    game.pages.remove(&((LOADED + 0x2000) / 4096));
    assert_eq!(elf_text(&game), None);
}

#[test]
fn patterns_that_do_not_fit_are_not_found() {
    let mut game = Game::empty();
    let start = 0x2_0000_0000u64;
    game.map(start, CHUNK_SIZE as u64 + 0x1000);
    let long = vec![Some(0u8); CHUNK_SIZE];
    let mut proc = attach();
    assert_eq!(drive(&game, &mut proc, |p| scan_pattern(p, start, 0x1000, &long)), Vec::<u64>::new());
    let found = drive(&game, &mut proc, |p| scan_pattern(p, start, CHUNK_SIZE as u64 + 1, &long));
    assert_eq!(found, vec![start]);
    let longer = vec![None; CHUNK_SIZE + 1];
    let found = drive(&game, &mut proc, |p| scan_pattern(p, start, CHUNK_SIZE as u64 + 1, &longer));
    assert_eq!(found, Vec::<u64>::new());
}

#[test]
fn patterns_are_found_across_chunks() {
    let mut game = Game::empty();
    let start = 0x2_0000_0000u64;
    let size = CHUNK_SIZE as u64 + 0x100;
    game.map(start, size);
    let pattern = [Some(0xAA), None, Some(0xCC)];
    // Once at the start, once where the chunks overlap, once at the very end.
    game.bytes(start, &[0xAA, 1, 0xCC]);
    game.bytes(start + CHUNK_SIZE as u64 - 3, &[0xAA, 2, 0xCC]);
    game.bytes(start + CHUNK_SIZE as u64 - 1, &[0xCC, 0xAA, 3, 0xCC]);
    game.bytes(start + size - 3, &[0xAA, 4, 0xCC]);
    let mut proc = attach();
    let found = drive(&game, &mut proc, |p| scan_pattern(p, start, size, &pattern));
    assert_eq!(
        found,
        vec![
            start,
            start + CHUNK_SIZE as u64 - 3,
            start + CHUNK_SIZE as u64 - 3,
            start + CHUNK_SIZE as u64,
            start + size - 3,
        ]
    );
    assert_eq!(drive(&game, &mut proc, |p| scan_pattern(p, start, size, &[])), Vec::<u64>::new());
    assert_eq!(drive(&game, &mut proc, |p| scan_pattern(p, start, 2, &pattern)), Vec::<u64>::new());
}

#[test]
fn a_chunk_that_cannot_be_read_is_passed_over() {
    let mut game = Game::empty();
    let start = 0x2_0000_0000u64;
    let size = CHUNK_SIZE as u64 + 0x1000;
    game.bytes(start + CHUNK_SIZE as u64 + 8, &[0xAA]);
    game.map(start + CHUNK_SIZE as u64 - 0x1000, 0x2000);
    let mut proc = attach();
    let found = drive(&game, &mut proc, |p| scan_pattern(p, start, size, &[Some(0xAA)]));
    assert_eq!(found, vec![start + CHUNK_SIZE as u64 + 8]);
}

#[test]
fn displacements_are_resolved() {
    let mut game = Game::empty();
    game.bytes(0x1000, &rip([0x48, 0x8D, 0x0D], 0x1000, 0x900));
    game.bytes(0x1010, &rip([0x48, 0x8D, 0x0D], 0x1010, 0));
    game.bytes(0x1020, &[0x48, 0x8D, 0x0D, 0x00, 0x00, 0x00, 0x80]);
    let mut proc = attach();
    let mut at = |addr: u64| drive(&game, &mut proc, |p| resolve_rip_relative(p, addr, 7, 3));
    assert_eq!(at(0x1000), Some(0x900));
    assert_eq!(at(0x1010), None);
    assert_eq!(at(0x1020), None);
    assert_eq!(at(0x9000), None);
}

/// A game that a scan finds its way through.
fn scannable() -> Game {
    scannable_through([0x4C, 0x8B, 0x3D])
}

/// The same, with the object array named by this instruction.
fn scannable_through(opcode: [u8; 3]) -> Game {
    let mut game = Game::with_names();
    let class_class = game.object(0, "Class", 0);
    let package_class = game.object(class_class, "Package", 0);
    let function_class = game.object(class_class, "Function", 0);
    let world_class = game.object(class_class, "World", 0);
    let mut objects = Vec::new();
    for i in 0..200 {
        // A wrong stride sees every third object only.
        let class = [class_class, package_class, function_class][i % 3];
        objects.push(game.object(class, "Thing", 0));
    }
    game.object_array(&objects, 20_000, 0x20);
    let world = game.object(world_class, "Map", 0);
    game.u64(GWORLD, world);
    let mut code = vec![0x90; 16];
    let mut add = |code: &mut Vec<u8>, opcode: [u8; 3], target: u64| {
        let at = TEXT + code.len() as u64;
        code.extend(rip(opcode, at, target));
    };
    add(&mut code, [0x48, 0x8D, 0x0D], BASE + 0x10);
    add(&mut code, [0x48, 0x8D, 0x0D], GNAMES);
    add(&mut code, opcode, GOBJECTS);
    add(&mut code, [0x48, 0x89, 0x05], BASE + 0x20);
    add(&mut code, [0x48, 0x89, 0x3D], GWORLD);
    game.image(&code);
    game
}

fn run_scan(game: &Game) -> Scanned {
    let mut proc = attach();
    let mut progress = ScanProgress::new();
    drive(game, &mut proc, |p| scan(p, &mut progress))
}

#[test]
fn a_scan_finds_the_globals() {
    let game = scannable();
    let found = run_scan(&game).expect("globals");
    assert_eq!(
        found,
        ScanResults {
            gnames: GNAMES,
            gobjects: GOBJECTS,
            gworld: GWORLD,
            layout: EngineLayout { fuobject_item_size: 0x20 },
        }
    );
    let mut proc = attach();
    let mut names = pool(&game, &mut proc);
    assert!(drive(&game, &mut proc, |p| validate_gnames(p, found.gnames)));
    assert!(!drive(&game, &mut proc, |p| validate_gnames(p, found.gobjects)));
    assert!(drive(&game, &mut proc, |p| validate_gworld(p, &mut names, found.gworld)));
    assert!(!drive(&game, &mut proc, |p| validate_gworld(p, &mut names, found.gnames)));
}

#[test]
fn every_register_can_name_the_object_array() {
    for prefix in [0x48u8, 0x4C] {
        for register in 0..8u8 {
            let opcode = if register % 2 == 0 { 0x8D } else { 0x8B };
            let found = run_scan(&scannable_through([prefix, opcode, 8 * register + 5]));
            // rsp is the one that is passed over.
            if prefix == 0x48 && register == 4 {
                assert!(matches!(found, Err(ScanFailure::NoGObjects(_))));
            } else {
                assert_eq!(found.expect("globals").gobjects, GOBJECTS);
            }
        }
    }
    let found = run_scan(&scannable_through([0x4C, 0x8B, 0x25])).expect("globals");
    assert_eq!(found.gobjects, GOBJECTS);
}

#[test]
fn the_object_array_may_stand_behind_the_target() {
    let game = scannable();
    let mut proc = attach();
    let mut names = pool(&game, &mut proc);
    let verdict =
        drive(&game, &mut proc, |p| validate_gobjects(p, &mut names, GOBJECTS - 0x10));
    match verdict {
        Validation::Valid { effective_addr, stride } => {
            assert_eq!(effective_addr, GOBJECTS);
            assert_eq!(stride, 0x20);
        }
        other => panic!("{other:?}"),
    }
    let verdict = drive(&game, &mut proc, |p| validate_gobjects(p, &mut names, GNAMES));
    assert!(matches!(verdict, Validation::Reject));
}

#[test]
fn a_scan_says_why_it_fails() {
    assert!(matches!(run_scan(&Game::empty()), Err(ScanFailure::NoTextSection)));

    let mut game = Game::empty();
    game.image(&[0x90; 64]);
    assert!(matches!(run_scan(&game), Err(ScanFailure::NoGNames)));

    // The first name can be read, but not the 256 bytes that a pool starts with.
    let mut game = scannable();
    game.pages.get_mut(&(BLOCK0 / 4096)).unwrap().truncate(64);
    assert!(matches!(run_scan(&game), Err(ScanFailure::NoNamePool)));

    // The block cannot be read to its end.
    let mut game = scannable();
    game.pages.remove(&((BLOCK0 + BLOCK_SIZE - 1) / 4096));
    assert!(matches!(run_scan(&game), Err(ScanFailure::BadNamePool)));

    let mut game = scannable();
    game.u64(GWORLD, 0);
    assert!(matches!(run_scan(&game), Err(ScanFailure::NoGWorld)));
}

#[test]
fn near_misses_are_shown() {
    let mut game = scannable();
    // Take away most of the objects.
    let chunks = u64::from_le_bytes(
        game.pages[&(GOBJECTS / 4096)][(GOBJECTS % 4096) as usize..][..8].try_into().unwrap(),
    );
    let chunk0 = u64::from_le_bytes(game.pages[&(chunks / 4096)][..8].try_into().unwrap());
    for i in 10..200u64 {
        game.u64(chunk0 + i * 0x20, 0);
    }
    match run_scan(&game) {
        Err(ScanFailure::NoGObjects(misses)) => {
            assert_eq!(misses.len(), 1);
            assert_eq!(misses[0].addr, GOBJECTS);
            assert_eq!(misses[0].base_off, 0);
            assert_eq!(misses[0].num_elements, 20_000);
            assert_eq!(misses[0].chunk0, chunk0);
            assert_eq!(misses[0].stride_results.len(), 2);
            let aligned = &misses[0].stride_results[1];
            assert_eq!(aligned.stride, 0x20);
            assert_eq!(aligned.valid, 10);
            assert_eq!(aligned.unique, 3);
            assert!(aligned.known);
            assert_eq!(aligned.samples, vec!["Class", "Function", "Package"]);
            assert_eq!(misses[0].stride_results[0].unique, 1);
            assert_eq!(misses[0].chunk0_preview.as_ref().map(|b| b.len()), Some(0x40));
        }
        other => panic!("{other:?}"),
    }
}

#[test]
fn near_misses_are_ranked_and_shown_once() {
    let mut game = Game::with_names();
    let class_class = game.object(0, "Class", 0);
    let package_class = game.object(class_class, "Package", 0);
    let class = game.object(class_class, "A", 0);
    let package = game.object(package_class, "B", 0);
    let poor = BASE + 0x3300;
    let good = BASE + 0x3400;
    let even = BASE + 0x3500;
    game.object_array_at(poor, &[class], 20_000, 0x20);
    game.object_array_at(good, &[class, package], 20_000, 0x20);
    game.object_array_at(even, &[package], 20_000, 0x20);
    let mut code = Vec::new();
    for target in [GNAMES, poor, good, even, good, poor - 0x10] {
        let at = TEXT + code.len() as u64;
        code.extend(rip([0x48, 0x8D, 0x0D], at, target));
    }
    game.image(&code);
    match run_scan(&game) {
        Err(ScanFailure::NoGObjects(misses)) => {
            // Of two that score as much, the one that was found first comes first.
            let order: Vec<(u64, u64)> = misses.iter().map(|m| (m.addr, m.base_off)).collect();
            assert_eq!(order, vec![(good, 0), (poor, 0), (even, 0)]);
            assert_eq!(misses[0].stride_results[1].unique, 2);
            assert_eq!(misses[0].stride_results[1].valid, 2);
            assert!(!misses[2].stride_results[1].known || misses[2].stride_results[1].unique == 1);
        }
        other => panic!("{other:?}"),
    }
}

/// Every eight bytes of the first chunk refer to an object; one in `nth` is a package.
fn dense(count: usize, nth: usize) -> Validation {
    let mut game = Game::with_names();
    let class_class = game.object(0, "Class", 0);
    let package_class = game.object(class_class, "Package", 0);
    let class = game.object(class_class, "A", 0);
    let package = game.object(package_class, "B", 0);
    let objects: Vec<u64> =
        (0..count).map(|i| if i % nth == 1 { package } else { class }).collect();
    game.object_array(&objects, 20_000, 8);
    let mut proc = attach();
    let mut names = pool(&game, &mut proc);
    drive(&game, &mut proc, |p| validate_gobjects(p, &mut names, GOBJECTS))
}

#[test]
fn the_stride_with_more_classes_wins() {
    // 0x18 sees every third object, 0x20 every fourth.
    match dense(400, 2) {
        Validation::NearMiss(nm) => {
            assert_eq!(nm.stride_results[0].unique, 2);
            assert_eq!(nm.stride_results[1].unique, 1);
            assert_eq!(nm.stride_results[0].valid, 134);
        }
        other => panic!("{other:?}"),
    }
    match dense(800, 3) {
        Validation::Valid { stride, .. } => assert_eq!(stride, 0x20),
        other => panic!("{other:?}"),
    }
    // Both see both classes: the first one is taken.
    match dense(800, 5) {
        Validation::Valid { stride, .. } => assert_eq!(stride, 0x18),
        other => panic!("{other:?}"),
    }
}

#[test]
fn an_array_inside_the_image_is_no_object_array() {
    let mut game = scannable();
    let chunks = BASE + 0x3800;
    game.u64(GOBJECTS, chunks);
    let mut proc = attach();
    let mut names = pool(&game, &mut proc);
    let verdict = drive(&game, &mut proc, |p| validate_gobjects(p, &mut names, GOBJECTS));
    assert!(matches!(verdict, Validation::Reject));
    let mut game = scannable();
    game.u32(GOBJECTS + 0x14, 19_999);
    let mut proc = attach();
    let mut names = pool(&game, &mut proc);
    let verdict = drive(&game, &mut proc, |p| validate_gobjects(p, &mut names, GOBJECTS));
    assert!(matches!(verdict, Validation::Reject));
}

#[test]
fn a_scan_can_be_run_again_after_each_fetch() {
    let game = scannable();
    let mut proc = attach();
    let mut progress = ScanProgress::new();
    let mut asked = Vec::new();
    let found = loop {
        match scan(&proc, &mut progress) {
            Ok(found) => break found,
            Err(read) => {
                assert!(!asked.contains(&read));
                asked.push(read);
                game.fetch(&mut proc, read);
            }
        }
    };
    // More pages change nothing.
    for page in game.pages.keys() {
        proc.insert_page(*page, game.pages.get(page).cloned());
    }
    let mut again = ScanProgress::new();
    assert_eq!(scan(&proc, &mut again).unwrap().unwrap(), found.unwrap());
}

// ── Search ──────────────────────────────────────────────────────────

fn objects(game: &Game, proc: &mut ProcessHandle) -> GObjects {
    let mut walk = ObjectWalk::new();
    drive(game, proc, |p| GObjects::with_addr(p, GOBJECTS, ALIGNED, &mut walk)).unwrap()
}

#[test]
fn objects_are_searched_by_name() {
    let game = sdk();
    let mut proc = attach();
    let mut names = pool(&game, &mut proc);
    let all = objects(&game, &mut proc);
    let mut search = |needles: &[&str], limit: usize| {
        let needles: Vec<String> = needles.iter().map(|s| s.to_string()).collect();
        let mut walk = SearchWalk::new();
        drive(&game, &mut proc, |p| {
            search_objects(p, &mut names, &all, &needles, limit, &mut walk)
        })
    };
    let hits = search(&["CONTROLLER", "estate"], 300);
    assert_eq!(
        hits.iter().map(|h| h.full.as_str()).collect::<Vec<_>>(),
        vec![
            "/Script/Engine.Controller",
            "/Script/Engine.PlayerController",
            "/Script/Engine.EState",
            "/Script/Engine.PlayerController.NotAFunction",
        ]
    );
    assert_eq!(hits[0].class_name, "Class");
    assert_eq!(hits[2].class_name, "Enum");
    assert_eq!(search(&["controller"], 2).len(), 2);
    assert_eq!(search(&["controller"], 0).len(), 1);
    assert_eq!(search(&["nothing of the kind"], 300).len(), 0);
}

#[test]
fn an_instance_of_a_class_is_found() {
    let game = sdk();
    let mut proc = attach();
    let mut names = pool(&game, &mut proc);
    let all = objects(&game, &mut proc);
    let mut find = |target: &str| {
        let mut walk = InstanceWalk::new();
        drive(&game, &mut proc, |p| find_instance(p, &mut names, &all, target, &mut walk))
    };
    assert_eq!(find("ScriptStruct"), Some(all.objects[2].addr));
    assert_eq!(find("Class"), Some(all.objects[3].addr));
    assert_eq!(find("Nowhere"), None);
    // A class that has no name goes by no name.
    assert_eq!(find(""), Some(all.objects[0].addr));
}

#[test]
fn virtual_functions_have_static_addresses() {
    let mut game = Game::empty();
    game.u64(0x7000, BASE + 0x1500);
    let mut proc = ProcessHandle::new(1, 0x7FF6_0000_0000);
    game.u64(0x7008, 0x7FF6_0000_1500);
    game.u64(0x7010, 0);
    let slot = drive(&game, &mut proc, |p| resolve_static(p, 0x7008)).unwrap();
    assert_eq!(slot.runtime, 0x7FF6_0000_1500);
    assert_eq!(slot.rva, 0x1500);
    assert_eq!(slot.ida, 0x1_4000_1500);
    assert_eq!(drive(&game, &mut proc, |p| resolve_static(p, 0x7010)), None);
    let below = drive(&game, &mut proc, |p| resolve_static(p, 0x7000)).unwrap();
    assert_eq!(below.rva, (BASE + 0x1500).wrapping_sub(0x7FF6_0000_0000));
}

// ── Overlay ─────────────────────────────────────────────────────────

const WORLD: u64 = 0x4_0000_0000;

struct Stage {
    game: Game,
    pawn: u64,
    level: u64,
}

/// A pawn of this class that stands at `pos`.
fn add_pawn(game: &mut Game, class: u64, name: &str, pos: [f64; 3]) -> u64 {
    let pawn = game.object(class, name, 0);
    let root = game.room(0x200);
    game.u64(pawn + 0x1b8, root);
    for (i, v) in pos.iter().enumerate() {
        game.f64(root + 0x140 + 8 * i as u64, *v);
    }
    pawn
}

/// A world with a camera, a local player, three players and four actors.
fn stage() -> Stage {
    let mut game = Game::with_names();
    game.map(WORLD, 0x1000);
    game.u64(GWORLD, WORLD);
    let character = game.object(0, "BP_PlayerCharacter_C", 0);
    let door = game.object(0, "BP_Door_C", 0);
    let member = game.object(0, "RedpointPartyMember", 0);
    let nameless = game.object(0, "x", 0);
    game.u32(nameless + 0x18, 0xF000);

    let pawn = add_pawn(&mut game, character, "Me", [1.0, 2.0, 3.0]);
    let rival = add_pawn(&mut game, character, "Rival", [4.0, 5.0, 6.0]);
    let dead = add_pawn(&mut game, character, "Dead", [7.0, 8.0, 9.0]);
    let gate = add_pawn(&mut game, door, "Gate", [0.0, 0.0, 1.0]);
    let friend = add_pawn(&mut game, member, "Friend", [0.0, 1.0, 0.0]);
    game.u32(friend + 0x2e8, 2);
    let odd = add_pawn(&mut game, nameless, "Odd", [0.0, 0.0, 0.0]);

    let instance = game.room(0x100);
    let players = game.room(8);
    let local = game.room(0x100);
    let controller = game.room(0x400);
    let manager = game.room(0x2000);
    game.u64(WORLD + 0x228, instance);
    game.u64(instance + 0x38, players);
    game.u32(instance + 0x40, 1);
    game.u64(players, local);
    game.u64(local + 0x30, controller);
    game.u64(controller + 0x350, pawn);
    game.u64(controller + 0x360, manager);
    let pov = manager + 0x1530 + 0x10;
    for (i, v) in [10.0, 20.0, 30.0, -5.0, 90.0, 0.0].iter().enumerate() {
        game.f64(pov + 8 * i as u64, *v);
    }
    game.bytes(pov + 0x30, &90.0f32.to_le_bytes());

    let state = game.room(0x400);
    game.u64(WORLD + 0x1b0, state);
    let array = game.room(0x100);
    game.u64(state + 0x2c0, array);
    game.u32(state + 0x2c8, 5);
    let list: [(&str, u64, u8, Option<f32>); 4] = [
        ("Me", pawn, 0, Some(100.0)),
        ("Rival", rival, 0, Some(50.0)),
        ("Dead", dead, 0, Some(0.0)),
        ("", 0, 0x02, None),
    ];
    for (i, (name, body, flags, health)) in list.iter().enumerate() {
        let ps = game.room(0x400);
        game.u64(array + 8 * i as u64, ps);
        game.bytes(ps + 0x2b2, &[*flags]);
        game.u64(ps + 0x320, *body);
        if !name.is_empty() {
            game.fstring(ps + 0x340, name);
        }
        if let Some(h) = health {
            let set = game.room(0x100);
            game.u64(ps + 0x3b0, set);
            game.bytes(set + 0x30 + 0x0c, &h.to_le_bytes());
        }
        if *name == "Me" {
            game.u64(controller + 0x2b0, ps);
        }
    }

    let level = game.room(0x400);
    game.u64(WORLD + 0x30, level);
    let actors = game.room(0x100);
    for (i, actor) in [pawn, rival, gate, friend].iter().enumerate() {
        game.u64(actors + 8 * i as u64, *actor);
    }
    game.u64(actors + 8 * 5, odd);
    // A pointer that is no array, then the array.
    game.u64(level + 0x88, actors);
    game.u64(level + 0x98, actors);
    game.u32(level + 0xA0, 4);
    game.u32(level + 0xA4, 8);
    Stage { game, pawn, level }
}

#[test]
fn the_camera_is_read() {
    let Stage { game, pawn, .. } = stage();
    let mut proc = attach();
    let (cam, body) = drive(&game, &mut proc, |p| read_camera(p, WORLD)).unwrap();
    assert_eq!(body, pawn);
    assert_eq!(f64::from_bits(cam.loc.x), 10.0);
    assert_eq!(f64::from_bits(cam.loc.z), 30.0);
    assert_eq!(f64::from_bits(cam.rot.x), -5.0);
    assert_eq!(f64::from_bits(cam.rot.y), 90.0);
    assert_eq!(f32::from_bits(cam.fov), 90.0);
    assert_eq!(drive(&game, &mut proc, |p| read_camera(p, WORLD + 0x8)), None);
    let at = drive(&game, &mut proc, |p| actor_location(p, pawn)).unwrap();
    assert_eq!([at.x, at.y, at.z].map(f64::from_bits), [1.0, 2.0, 3.0]);
}

#[test]
fn the_local_player_has_a_name() {
    let Stage { mut game, .. } = stage();
    let mut proc = attach();
    let name = drive(&game, &mut proc, |p| local_player_name(p, WORLD));
    assert_eq!(name.as_deref(), Some("Me"));
    let text = game.room(0x10);
    game.fstring(text, "Zoë\0\0");
    assert_eq!(drive(&game, &mut attach(), |p| read_fstring(p, text)).as_deref(), Some("Zoë"));
    game.u32(text + 8, 513);
    assert_eq!(drive(&game, &mut attach(), |p| read_fstring(p, text)), None);
    game.u32(text + 8, 0);
    assert_eq!(drive(&game, &mut attach(), |p| read_fstring(p, text)), None);
}

#[test]
fn players_are_read() {
    let Stage { game, pawn, .. } = stage();
    let mut proc = attach();
    let players = drive(&game, &mut proc, |p| read_players(p, WORLD));
    // The fifth element is null.
    assert_eq!(players.len(), 4);
    assert_eq!(
        players.iter().map(|p| (p.name.as_str(), p.is_self, p.drawable())).collect::<Vec<_>>(),
        vec![("Me", true, false), ("Rival", false, true), ("Dead", false, false), ("Player", false, false)]
    );
    assert_eq!(players[0].pawn, pawn);
    assert!(players[3].spectator);
    assert_eq!(players[1].health.map(f32::from_bits), Some(50.0));
    assert_eq!(players[3].health, None);
}

#[test]
fn health_decides_who_is_alive() {
    let player = |health: Option<f32>| PlayerView {
        name: String::new(),
        spectator: false,
        pawn: 1,
        health: health.map(f32::to_bits),
        is_self: false,
    };
    for h in [0.1f32, 100.0, f32::MIN_POSITIVE, f32::INFINITY, 1e-45] {
        assert!(player(Some(h)).drawable(), "{h}");
    }
    for h in [0.0f32, -0.0, -1.0, f32::NAN, f32::NEG_INFINITY, -f32::NAN] {
        assert!(!player(Some(h)).drawable(), "{h}");
    }
    assert!(player(None).drawable());
}

#[test]
fn players_are_marked() {
    let Stage { game, .. } = stage();
    let mut proc = attach();
    let scene = drive(&game, &mut proc, |p| collect_player_targets(p, GWORLD)).unwrap();
    assert_eq!(f64::from_bits(scene.camera.loc.y), 20.0);
    assert_eq!(scene.markers.len(), 1);
    assert_eq!(scene.markers[0].name, "Rival");
    assert!(scene.markers[0].enemy);
    assert_eq!(f64::from_bits(scene.markers[0].pos.x), 4.0);
    assert!(drive(&game, &mut proc, |p| collect_player_targets(p, WORLD)).is_none());
}

#[test]
fn the_actors_of_a_level_are_found_and_counted() {
    let Stage { game, level, .. } = stage();
    let mut proc = attach();
    let mut names = pool(&game, &mut proc);
    let off = drive(&game, &mut proc, |p| find_actors_offset(p, &mut names, level));
    assert_eq!(off, Some(0x98));
    assert_eq!(drive(&game, &mut proc, |p| find_actors_offset(p, &mut names, WORLD)), None);
    let mut walk = ActorWalk::new();
    let actors = drive(&game, &mut proc, |p| read_actors(p, &mut names, level + 0x98, &mut walk));
    assert_eq!(actors.len(), 4);
    assert_eq!(f64::from_bits(actors[1].location.unwrap().x), 4.0);
    let counts: Vec<(String, usize)> =
        class_histogram(&actors).into_iter().map(|c| (c.class, c.count)).collect();
    assert_eq!(counts[0], ("BP_PlayerCharacter_C".to_string(), 2));
    assert_eq!(counts.len(), 3);
    assert!(counts.contains(&("BP_Door_C".to_string(), 1)));
    assert!(counts.contains(&("RedpointPartyMember".to_string(), 1)));
}

#[test]
fn a_probe_reports_all_that_hangs_on_the_world() {
    let Stage { game, level, .. } = stage();
    let mut proc = attach();
    let mut names = pool(&game, &mut proc);
    let mut walk = ProbeWalk::new();
    let report =
        drive(&game, &mut proc, |p| probe(p, &mut names, GWORLD, &mut walk)).expect("a report");
    assert_eq!(report.world, WORLD);
    assert_eq!(f64::from_bits(report.camera.loc.y), 20.0);
    let pawn = report.pawn.expect("a pawn");
    assert_eq!(pawn.class, "BP_PlayerCharacter_C");
    assert_eq!(f64::from_bits(pawn.pos.z), 3.0);
    assert_eq!(report.found, LevelActors { level, actors_off: 0x98 });
    assert_eq!(report.actor_count, 4);
    assert_eq!(report.actors.len(), 4);
    assert_eq!(report.local_name.as_deref(), Some("Me"));
    assert_eq!(report.players.len(), 4);
    let start = drive(&game, &mut proc, |p| start_overlay(p, &mut names, GWORLD)).unwrap();
    assert_eq!((start.actors_off, start.local_name.as_str()), (0x98, "Me"));
}

#[test]
fn a_probe_says_where_the_chain_breaks() {
    let broken = |at: u64, also: Option<u64>| {
        let Stage { mut game, .. } = stage();
        game.u64(at, 0);
        if let Some(other) = also {
            game.u64(other, 0);
        }
        let mut proc = attach();
        let mut names = pool(&game, &mut proc);
        let mut walk = ProbeWalk::new();
        let report = drive(&game, &mut proc, |p| probe(p, &mut names, GWORLD, &mut walk)).err();
        let start = drive(&game, &mut proc, |p| start_overlay(p, &mut names, GWORLD)).err();
        (report, start)
    };
    let level = stage().level;
    let none = (Some(ProbeFailure::NoWorld), Some(ProbeFailure::NoWorld));
    assert_eq!(broken(GWORLD, None), none);
    assert_eq!(broken(WORLD + 0x228, None), (Some(ProbeFailure::NoCamera), None));
    let none = (Some(ProbeFailure::NoLevel), Some(ProbeFailure::NoLevel));
    assert_eq!(broken(WORLD + 0x30, None), none);
    let none = (Some(ProbeFailure::NoActors), Some(ProbeFailure::NoActors));
    assert_eq!(broken(level + 0x98, None), none);
    // What is missing first is what is said.
    let both = (Some(ProbeFailure::NoCamera), Some(ProbeFailure::NoLevel));
    assert_eq!(broken(WORLD + 0x30, Some(WORLD + 0x228)), both);
}

#[test]
fn the_first_that_can_be_seen() {
    let visible = vec![false, true, true, false, true];
    assert_eq!(first_visible(&visible, 2), (3, vec![1, 2]));
    assert_eq!(first_visible(&visible, 3), (3, vec![1, 2, 4]));
    assert_eq!(first_visible(&visible, 9), (3, vec![1, 2, 4]));
    assert_eq!(first_visible(&visible, 0), (3, vec![]));
    assert_eq!(first_visible(&vec![], 9), (0, vec![]));
}

#[test]
fn the_top_classes_are_shown() {
    let entries = |n: usize| -> Vec<ClassCount> {
        (0..n).map(|i| ClassCount { class: format!("C{i}"), count: n - i }).collect()
    };
    assert_eq!(top_classes(entries(3)).len(), 3);
    let top = top_classes(entries(31));
    assert_eq!(top.len(), 30);
    assert_eq!((top[0].class.as_str(), top[29].class.as_str()), ("C0", "C29"));
}

fn markers(filter: ActorFilter) -> Vec<(String, bool)> {
    let Stage { game, .. } = stage();
    let mut proc = attach();
    let mut names = pool(&game, &mut proc);
    let mut cache = LabelCache::new();
    let mut walk = MarkerWalk::new();
    let scene = drive(&game, &mut proc, |p| {
        collect_targets(p, &mut names, &mut cache, GWORLD, 0x98, "Me", &filter, &mut walk)
    })
    .unwrap();
    scene.markers.into_iter().map(|m| (m.name, m.enemy)).collect()
}

#[test]
fn actors_are_marked() {
    assert_eq!(
        markers(ActorFilter::new(None, true)),
        vec![
            ("Me".to_string(), false),
            ("PlayerCharacter".to_string(), false),
            ("Door".to_string(), false),
            ("Member 2".to_string(), true),
        ]
    );
    assert_eq!(
        markers(ActorFilter::new(None, false)),
        vec![
            ("Me".to_string(), false),
            ("PlayerCharacter".to_string(), false),
            ("Member 2".to_string(), true),
        ]
    );
    assert_eq!(
        markers(ActorFilter::new(Some("Door".to_string()), false)),
        vec![("Door".to_string(), false)]
    );
}

#[test]
fn cached_class_names_are_kept() {
    let Stage { game, pawn, .. } = stage();
    let mut proc = attach();
    let mut names = pool(&game, &mut proc);
    let class = drive(&game, &mut proc, |p| p.ptr(pawn + 0x10)).unwrap();
    let mut cache = LabelCache::new();
    let first = drive(&game, &mut proc, |p| cache.get(p, &mut names, class));
    assert_eq!(first, "BP_PlayerCharacter_C");
    // A process of which nothing is known: the cache answers.
    let fresh = attach();
    assert_eq!(cache.get(&fresh, &mut names, class), Ok(first));
    assert!(LabelCache::new().get(&fresh, &mut names, class).is_err());
}

#[test]
fn actors_have_labels() {
    let mut game = Game::empty();
    game.map(0x9000, 0x1000);
    let mut proc = attach();
    let mut label = |actor: u64, class: &str, pawn: u64, local: &str| {
        drive(&game, &mut proc, |p| display_name(p, actor, class, pawn, local))
    };
    assert_eq!(label(0x9000, "BP_Hero_C", 0x9000, "Me"), "Me");
    assert_eq!(label(0x9000, "BP_Hero_C", 0x9000, ""), "Hero");
    assert_eq!(label(0x9000, "XPartyMember", 1, "Me"), "Member 0");
    assert_eq!(label(0xF_0000, "XPartyMember", 1, "Me"), "Member -1");
    assert_eq!(label(0x9000, "Lamp", 1, "Me"), "Lamp");
}

#[test]
fn colours_and_windows() {
    assert_eq!(rgb(255, 50, 80), 0x0050_32FF);
    assert!(is_game_window(7, 7, true, 0, 0, 1920, 1080));
    assert!(!is_game_window(7, 8, true, 0, 0, 1920, 1080));
    assert!(!is_game_window(7, 7, false, 0, 0, 1920, 1080));
    assert!(!is_game_window(7, 7, true, 0, 0, 100, 1080));
    assert!(!is_game_window(7, 7, true, i32::MIN, 0, i32::MAX, 100));
}

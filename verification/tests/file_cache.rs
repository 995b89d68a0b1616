use rktop::file_cache::{
    clear_cache, keep_open, read_cached_file, read_cached_i32, read_cached_u32, read_cached_u64,
    FileCache, FileStep,
};

#[test]
fn a_file_is_opened_once() {
    let mut cache = FileCache::new();
    assert_eq!(read_cached_file(&cache, "/proc/stat"), FileStep::Open);
    let step = keep_open(&mut cache, "/proc/stat", 3);
    assert_eq!(step, FileStep::Read { handle: 3, from: 0 });
    keep_open(&mut cache, "/proc/meminfo", 4);
    assert_eq!(read_cached_file(&cache, "/proc/stat"), FileStep::Read { handle: 3, from: 0 });
    assert_eq!(read_cached_file(&cache, "/proc/meminfo"), FileStep::Read { handle: 4, from: 0 });
    assert_eq!(read_cached_file(&cache, "/proc/sta"), FileStep::Open);
    keep_open(&mut cache, "/proc/stat", 5);
    assert_eq!(read_cached_file(&cache, "/proc/stat"), FileStep::Read { handle: 5, from: 0 });
}

struct Shelf {
    cache: FileCache,
    files: Vec<(String, usize)>,
}

impl Shelf {
    fn read(&mut self, path: &str, content: &str) -> String {
        let step = match read_cached_file(&self.cache, path) {
            FileStep::Open => {
                self.files.push((content.to_string(), 0));
                keep_open(&mut self.cache, path, self.files.len() as u64 - 1)
            }
            step => step,
        };
        match step {
            FileStep::Read { handle, from } => {
                let file = &mut self.files[handle as usize];
                file.1 = file.0.len();
                file.0[from as usize..].to_string()
            }
            FileStep::Open => panic!("not open"),
        }
    }
}

#[test]
fn a_file_is_read_whole_each_time() {
    let mut shelf = Shelf { cache: FileCache::new(), files: Vec::new() };
    for _ in 0..3 {
        assert_eq!(shelf.read("/sys/a", "12\n"), "12\n");
        assert_eq!(shelf.read("/sys/b", "x"), "x");
        assert_eq!(shelf.read("/sys/a", "12\n"), "12\n");
    }
    assert_eq!(shelf.files.len(), 2);
    assert!(shelf.files.iter().all(|(content, position)| content.len() == *position));
}

#[test]
fn a_cleared_cache_opens_files_again() {
    let mut cache = FileCache::new();
    keep_open(&mut cache, "a", 1);
    clear_cache(&mut cache);
    assert_eq!(read_cached_file(&cache, "a"), FileStep::Open);
}

#[test]
fn numbers_are_read_from_files() {
    assert_eq!(read_cached_u32(Some("1800000\n")), Some(1800000));
    assert_eq!(read_cached_u32(Some("4294967296\n")), None);
    assert_eq!(read_cached_u32(Some("\t 7 ")), Some(7));
    assert_eq!(read_cached_u32(Some("")), None);
    assert_eq!(read_cached_u32(None), None);
    assert_eq!(read_cached_u64(Some("18446744073709551615\n")), Some(u64::MAX));
    assert_eq!(read_cached_u64(Some("x")), None);
    assert_eq!(read_cached_u64(None), None);
    assert_eq!(read_cached_i32(Some("-40000\n")), Some(-40000));
    assert_eq!(read_cached_i32(Some("2147483648")), None);
    assert_eq!(read_cached_i32(None), None);
}

#[test]
fn a_number_on_a_line_reads_back() {
    for n in [0u32, 5, 99, 1_000_000, u32::MAX] {
        assert_eq!(read_cached_u32(Some(&format!("{}\n", n))), Some(n));
    }
    for n in [0i32, -5, i32::MIN, i32::MAX] {
        assert_eq!(read_cached_i32(Some(&format!("{}\n", n))), Some(n));
    }
}

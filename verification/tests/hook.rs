use surfaceflinger_hook::hook::{is_elf_hinted, SymbolHooker};
use surfaceflinger_hook::Error;

fn hooker(names: &[&str]) -> SymbolHooker {
    let symbols: Vec<String> = names.iter().map(|s| s.to_string()).collect();
    match SymbolHooker::from_scan(Some((true, Some(symbols)))) {
        Ok(h) => h,
        Err(e) => panic!("{e:?}"),
    }
}

fn keys(k: &[&str]) -> Vec<String> {
    k.iter().map(|s| s.to_string()).collect()
}

#[test]
fn from_scan_needs_a_shared_library() {
    assert!(matches!(SymbolHooker::from_scan(None), Err(Error::LibParse)));
    assert!(matches!(
        SymbolHooker::from_scan(Some((false, Some(vec!["a".to_string()])))),
        Err(Error::LibParse)
    ));
    assert!(matches!(SymbolHooker::from_scan(Some((true, None))), Err(Error::LibParse)));
    assert!(SymbolHooker::from_scan(Some((true, Some(vec![])))).is_ok());
}

#[test]
fn elf_hint() {
    assert!(!is_elf_hinted(b""));
    assert!(!is_elf_hinted(b"\x7fELF"));
    let mut elf = vec![0x7fu8, b'E', b'L', b'F', 2, 1, 1, 0];
    elf.resize(16, 0);
    assert!(is_elf_hinted(&elf));
    let mut macho = vec![0xcfu8, 0xfa, 0xed, 0xfe];
    macho.resize(64, 0);
    assert!(!is_elf_hinted(&macho));
}

#[test]
fn new_rejects_what_is_no_library() {
    assert!(matches!(SymbolHooker::new(b""), Err(Error::LibParse)));
    assert!(matches!(SymbolHooker::new(b"not an elf file at all"), Err(Error::LibParse)));
    let mut elf = vec![0x7fu8, b'E', b'L', b'F', 2, 1, 1, 0];
    elf.resize(16, 0);
    assert!(matches!(SymbolHooker::new(&elf), Err(Error::LibParse)));
    let mut macho = vec![0xcfu8, 0xfa, 0xed, 0xfe, 7, 0, 0, 1];
    macho.resize(4096, 0);
    assert!(matches!(SymbolHooker::new(&macho), Err(Error::LibParse)));
}

#[test]
fn find_first_symbol_with_all_keywords() {
    let h = hooker(&[
        "_ZN7android14SurfaceFlinger4initEv",
        "_ZN7android14DispSyncSource15onVsyncCallbackElll",
        "_ZN7android14SurfaceFlinger15postCompositionEv",
        "_ZN7android14SurfaceFlinger15postCompositionEv2",
    ]);
    assert_eq!(
        h.find_symbol(&keys(&["DispSyncSource", "onVsyncCallback"])).unwrap(),
        "_ZN7android14DispSyncSource15onVsyncCallbackElll"
    );
    assert_eq!(
        h.find_symbol(&keys(&["SurfaceFlinger", "postComposition"])).unwrap(),
        "_ZN7android14SurfaceFlinger15postCompositionEv"
    );
    assert_eq!(h.find_symbol(&keys(&[])).unwrap(), "_ZN7android14SurfaceFlinger4initEv");
    assert!(matches!(h.find_symbol(&keys(&["SurfaceFlinger", "onVsync"])), Err(Error::Symbol)));
    let empty = hooker(&[]);
    assert!(matches!(empty.find_symbol(&keys(&["x"])), Err(Error::Symbol)));
}

#[test]
fn keyword_order_and_repeats_do_not_matter() {
    let h = hooker(&[
        "_ZN7android14SurfaceFlinger4initEv",
        "_ZN7android14DispSyncSource15onVsyncCallbackElll",
        "_ZN7android14SurfaceFlinger15postCompositionEv",
    ]);
    let a = h.find_symbol(&keys(&["SurfaceFlinger", "postComposition"])).unwrap();
    let b = h.find_symbol(&keys(&["postComposition", "SurfaceFlinger", "postComposition"])).unwrap();
    assert_eq!(a, b);
}

use diskhoji::cli::{parse_args, DEFAULT_PORT};
use diskhoji::config::{dirs_config, flipped, path_inside, prefs_path, prefs_text, theme_from, ThemeKind};
use diskhoji::elevate::{
    can_cut, describe_failure, grant_root_x_access, is_elevated, log_line, log_path, no_polkit,
    relaunch_elevated, relaunch_script, revoke_root_x_access, shell_consent, takeover, takeover_args,
    Desktop,
};
use diskhoji::icon::{icon_from, load_icon};
use diskhoji::launch::{
    open_browser, open_with_default, reveal_in_file_manager, reveal_instead, uri_encode, Invocation, Platform,
};
use diskhoji::roots::{disk_usage, drive_roots, mount_roots, volume_roots, Place};
use diskhoji::theme::{hex, theme, Rgb};

fn some(s: &str) -> Option<String> {
    Some(s.to_string())
}

fn places(v: &Vec<Place>) -> Vec<(&str, &str)> {
    v.iter().map(|p| (p.path.as_str(), p.label.as_str())).collect()
}

fn line(i: &Invocation) -> String {
    let mut s = i.program.clone();
    for a in &i.args {
        s.push(' ');
        s.push_str(a);
    }
    s
}

#[test]
fn places_from_the_mount_table() {
    let mounts = "sysfs /sys sysfs rw 0 0\n\
                  /dev/sda1 / ext4 rw 0 0\n\
                  /dev/sda2 /boot/efi vfat rw 0 0\n\
                  /dev/loop1 /snap/core ext4 ro 0 0\n\
                  /dev/loop2 /var/snap/x ext4 ro 0 0\n\
                  /dev/sdb1 /media/My\\040Disk ntfs3 rw 0 0\n\
                  /dev/sdc1 /home/u btrfs rw 0 0\n\
                  /dev/sda1 / ext4 rw 0 0\n\
                  short line\n\
                  tmpfs /tmp tmpfs rw 0 0\n\
                  \n\
                  /dev/sdd1 /mnt/x fuseblk";
    let v = mount_roots(some("/home/u"), some(mounts));
    assert_eq!(
        places(&v),
        [
            ("/home/u", "Home"),
            ("/", "System /"),
            ("/media/My Disk", "My Disk"),
            ("/mnt/x", "x"),
        ]
    );
    assert_eq!(places(&mount_roots(None, some("d /a/ xfs\r\n"))), [("/a/", "")]);
    assert!(mount_roots(None, None).is_empty());
    assert_eq!(places(&mount_roots(some("/h"), None)), [("/h", "Home")]);
}

#[test]
fn places_elsewhere() {
    let vols = vec![
        ("/Volumes/A".to_string(), "A".to_string()),
        ("/".to_string(), "Macintosh".to_string()),
        ("/Volumes/A".to_string(), "B".to_string()),
    ];
    assert_eq!(
        places(&volume_roots(some("/Users/u"), &vols)),
        [("/Users/u", "Home"), ("/", "System /"), ("/Volumes/A", "A")]
    );
    let drives = vec![('C', 100), ('D', 0), ('Z', 1)];
    assert_eq!(
        places(&drive_roots(None, &drives)),
        [("C:\\", "C: drive"), ("Z:\\", "Z: drive")]
    );
    assert_eq!(disk_usage(Some((100, 40, 4096))), (409600, 163840));
    assert_eq!(disk_usage(None), (0, 0));
}

#[test]
fn paths_as_they_stand_in_a_uri() {
    assert_eq!(uri_encode("/a/B-9._~"), "/a/B-9._~");
    assert_eq!(uri_encode("/my file#1%"), "/my%20file%231%25");
    assert_eq!(uri_encode("/ä…"), "/%C3%A4%E2%80%A6");
    assert_eq!(uri_encode(""), "");
    let e = uri_encode("/ü x/?&=+");
    let mut bytes = Vec::new();
    let b = e.as_bytes();
    let mut i = 0;
    while i < b.len() {
        if b[i] == b'%' {
            bytes.push(u8::from_str_radix(&e[i + 1..i + 3], 16).unwrap());
            i += 3;
        } else {
            bytes.push(b[i]);
            i += 1;
        }
    }
    assert_eq!(String::from_utf8(bytes).unwrap(), "/ü x/?&=+");
}

#[test]
fn commands_for_the_desktop() {
    assert_eq!(
        line(&reveal_in_file_manager(Platform::Linux, "/a b")),
        "dbus-send --session --print-reply --dest=org.freedesktop.FileManager1 \
         /org/freedesktop/FileManager1 org.freedesktop.FileManager1.ShowItems \
         array:string:file:///a%20b string:"
    );
    assert_eq!(line(&reveal_in_file_manager(Platform::MacOs, "/a b")), "open -R /a b");
    assert_eq!(line(&reveal_in_file_manager(Platform::Windows, "C:\\x")), "explorer /select,C:\\x");
    assert_eq!(line(&open_with_default(Platform::Linux, "/f")), "xdg-open /f");
    let instead = |platform, answered, parent: Option<String>| {
        reveal_instead(platform, answered, &parent).map(|i| line(&i))
    };
    assert_eq!(instead(Platform::Linux, false, some("/a")), some("xdg-open /a"));
    assert_eq!(instead(Platform::Linux, false, None), some("xdg-open /"));
    assert_eq!(instead(Platform::Linux, true, some("/a")), None);
    assert_eq!(instead(Platform::MacOs, false, some("/a")), None);
    assert_eq!(instead(Platform::Windows, false, some("/a")), None);
    assert_eq!(line(&open_with_default(Platform::MacOs, "/f")), "open /f");
    assert_eq!(line(&open_with_default(Platform::Windows, "/f")), "explorer /f");
    let b = open_browser(Platform::Linux, "http://x");
    assert_eq!(b.len(), 7);
    assert_eq!(line(&b[0]), "google-chrome --app=http://x --new-window");
    assert_eq!(b[5].program, "microsoft-edge");
    assert_eq!(line(&b[6]), "xdg-open http://x");
    assert_eq!(line(&open_browser(Platform::MacOs, "u")[0]), "open u");
    assert_eq!(line(&open_browser(Platform::Windows, "u")[0]), "cmd /C start  u");
}

#[test]
fn settings_and_where_they_live() {
    assert_eq!(dirs_config(&some("/x"), &some("/h"), '/'), "/x");
    assert_eq!(dirs_config(&None, &some("/h"), '/'), "/h/.config");
    assert_eq!(dirs_config(&None, &None, '/'), "./.config");
    assert_eq!(prefs_path(&None, &some("/h/"), '/'), "/h/.config/diskhoji-prefs");
    assert_eq!(path_inside("", "a", '/'), "a");
    assert!(theme_from(&some(" light\n")) == ThemeKind::Light);
    assert!(theme_from(&some("Light")) == ThemeKind::Dark);
    assert!(theme_from(&None) == ThemeKind::Dark);
    for k in [ThemeKind::Dark, ThemeKind::Light] {
        assert!(theme_from(&some(prefs_text(k))) == k);
        assert!(flipped(k) != k);
    }
}

#[test]
fn elevation_commands() {
    assert!(is_elevated(0));
    assert!(!is_elevated(1000));
    assert_eq!(takeover(Platform::Linux, 0), None);
    assert_eq!(takeover(Platform::Linux, 1), None);
    assert_eq!(takeover(Platform::Linux, 2), Some(2));
    assert_eq!(takeover(Platform::MacOs, 77), Some(77));
    assert_eq!(takeover(Platform::Windows, 77), None);
    assert!(grant_root_x_access(false).is_none());
    assert_eq!(line(&grant_root_x_access(true).unwrap()), "xhost +si:localuser:root");
    assert!(revoke_root_x_access(false).is_none());
    assert_eq!(line(&revoke_root_x_access(true).unwrap()), "xhost -si:localuser:root");
    assert_eq!(log_path(&some("/c"), &None, '/'), "/c/diskhoji-elevate.log");
    assert_eq!(takeover_args(12), ["--takeover", "12"]);
    let mut d = Desktop {
        display: some(":0"),
        xauthority: None,
        home_cookie: some("/h/.Xauthority"),
        wayland_display: some("wayland-0"),
        runtime_dir: some("/run/u"),
        bus_address: None,
        home: some("/h"),
        uid: 1000,
    };
    assert_eq!(
        line(&relaunch_elevated(&d)),
        "pkexec env DISPLAY=:0 XAUTHORITY=/h/.Xauthority DISKHOJI_USER_UID=1000 \
         DISKHOJI_USER_XDG_RUNTIME_DIR=/run/u DISKHOJI_USER_HOME=/h"
    );
    d.xauthority = some("/x");
    assert!(line(&relaunch_elevated(&d)).contains(" XAUTHORITY=/x "));
    d.display = None;
    d.bus_address = some("unix:path=/b");
    assert_eq!(
        line(&relaunch_elevated(&d)),
        "pkexec env WAYLAND_DISPLAY=wayland-0 XDG_RUNTIME_DIR=/run/u DISKHOJI_USER_UID=1000 \
         DISKHOJI_USER_DBUS_SESSION_BUS_ADDRESS=unix:path=/b DISKHOJI_USER_XDG_RUNTIME_DIR=/run/u \
         DISKHOJI_USER_HOME=/h"
    );
    assert_eq!(
        line(&relaunch_script("/A's \"x\"\\y", 9)),
        "osascript -e do shell script \"'/A'\\\\''s \\\"x\\\"\\\\y' --takeover 9 >/dev/null 2>&1 &\" \
         with administrator privileges"
    );
    assert!(shell_consent(33).is_ok());
    assert_eq!(shell_consent(32).unwrap_err(), "Windows declined the elevation request");
    assert_eq!(no_polkit(), "pkexec not found — install polkit to elevate");
}

#[test]
fn elevation_failures_in_words() {
    let say = |code, log: Option<String>| describe_failure(Platform::Linux, code, &log);
    assert_eq!(say(Some(126), None), "Authorization was cancelled.");
    assert_eq!(say(Some(127), None), "Not authorized — no polkit agent answered.");
    assert_eq!(say(Some(126), some("boom")), "Authorization was cancelled.");
    assert_eq!(say(Some(127), some(&"ä".repeat(300))), "Not authorized — no polkit agent answered.");
    assert_eq!(
        say(Some(1), some(" \n\t\n")),
        "The elevated Diskhoji failed to start — try `sudo diskhoji` from a terminal."
    );
    assert_eq!(
        say(Some(1), some("\n  boom now \nlater")),
        "The elevated Diskhoji failed to start: boom now"
    );
    assert_eq!(
        say(Some(1), None),
        "The elevated Diskhoji failed to start — try `sudo diskhoji` from a terminal."
    );
    assert_eq!(say(None, some("boom")), "The elevated Diskhoji failed to start: boom");
    let long = "x".repeat(200);
    assert_eq!(
        say(Some(2), some(&long)),
        format!("The elevated Diskhoji failed to start: {}", "x".repeat(160))
    );
    let split = format!("{}{}", "x".repeat(159), "ä".repeat(3));
    assert_eq!(
        say(Some(2), some(&split)),
        format!("The elevated Diskhoji failed to start: {}", "x".repeat(159))
    );
    assert_eq!(
        say(Some(2), some(&"ä".repeat(100))),
        format!("The elevated Diskhoji failed to start: {}", "ä".repeat(80))
    );
    assert_eq!(
        say(Some(2), some(&"€".repeat(54))),
        format!("The elevated Diskhoji failed to start: {}", "€".repeat(53))
    );
    assert_eq!(
        describe_failure(Platform::MacOs, Some(1), &some("boom")),
        "Authorization was cancelled."
    );
    assert!(can_cut("short"));
    assert!(can_cut(&long));
    assert!(can_cut(&"ä".repeat(100)));
    assert!(!can_cut(&format!("{}{}", "x".repeat(159), "ä")));
    assert_eq!(log_line("\n  \n\t first \nsecond"), some("first"));
    assert_eq!(log_line(" \n\n"), None);
    assert_eq!(log_line(""), None);
}

#[test]
fn colors() {
    assert!(hex("#0E1116") == Rgb { r: 0x0E, g: 0x11, b: 0x16 });
    assert!(hex("#ffFFff") == Rgb { r: 255, g: 255, b: 255 });
    assert!(hex("#12345678") == Rgb { r: 0x34, g: 0x56, b: 0x78 });
    assert!(hex("#123456789") == Rgb { r: 0, g: 0, b: 0 });
    assert!(hex("#xyz") == Rgb { r: 0, g: 0, b: 0 });
    assert!(hex("#") == Rgb { r: 0, g: 0, b: 0 });
    assert!(hex("#+ff") == Rgb { r: 0, g: 0, b: 255 });
    for kind in [ThemeKind::Dark, ThemeKind::Light] {
        let t = theme(kind);
        for i in 0..8 {
            assert!(t.slot_color(i as u8) == t.slots[i]);
            for j in 0..i {
                assert!(t.slots[i] != t.slots[j]);
            }
        }
        assert!(t.slot_color(253) == t.small);
        assert!(t.slot_color(254) == t.diragg);
        assert!(t.slot_color(255) == t.other);
        assert!(t.slot_color(8) == t.other);
    }
    assert!(theme(ThemeKind::Dark).acc == Rgb { r: 0xE5, g: 0xB9, b: 0x6B });
    assert!(theme(ThemeKind::Light).heat[4] == Rgb { r: 0x21, g: 0x6E, b: 0x39 });
}

#[test]
fn an_icon_from_its_file() {
    let px: Vec<u8> = (0..24).collect();
    let img = image::RgbaImage::from_raw(3, 2, px.clone()).unwrap();
    let mut out = std::io::Cursor::new(Vec::new());
    img.write_to(&mut out, image::ImageFormat::Png).unwrap();
    let icon = load_icon(&out.into_inner()).unwrap();
    assert_eq!((icon.width, icon.height), (3, 2));
    assert_eq!(icon.rgba, px);
    assert!(load_icon(b"no picture").is_none());
    assert!(load_icon(b"").is_none());
    assert!(icon_from(None).is_none());
    assert!(icon_from(Some((3, 2, px.clone()))).is_some());
    assert!(icon_from(Some((3, 3, px))).is_none());
}

#[test]
fn the_command_line() {
    let read = |args: &[&str]| parse_args(&args.iter().map(|a| a.to_string()).collect());
    let o = read(&[]);
    assert_eq!((o.port, o.no_open, o.web, o.help, o.path), (DEFAULT_PORT, false, false, false, None));
    assert_eq!(DEFAULT_PORT, 5717);
    let o = read(&["--web", "--port", "80", "--no-open", "/a", "/b"]);
    assert_eq!((o.port, o.no_open, o.web, o.help, o.path), (80, true, true, false, some("/b")));
    assert_eq!(read(&["--port", "99999", "/a"]).port, 5717);
    assert_eq!(read(&["--port", "99999", "/a"]).path, some("/a"));
    assert_eq!(read(&["--port"]).port, 5717);
    assert_eq!(read(&["--port", "--web"]).web, false);
    let o = read(&["/x", "-h", "--web"]);
    assert_eq!((o.help, o.web, o.path), (true, false, some("/x")));
    assert!(read(&["--help"]).help);
}

[package]
name = "terminal_magic"
version = "1.0.0"
edition = "2021"
publish = false

[dependencies]
semver = "1"
shellexpand = "*"
diff = "*"
mustache = "*"
colored = "*"
dirs = "*"
structopt = "*"
regex = "*"
git2 = { version = "*", default-features = false }

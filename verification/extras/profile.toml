# The sound chip's arithmetic wraps: with overflow checks it would stop in the middle of a tune.

[profile.dev.package.resid-rs]
overflow-checks = false

[profile.release.package.resid-rs]
overflow-checks = false

//! The text of the generated files.

use crate::lazy_registration;
use crate::lazy_registration::control;
use crate::lazy_registration::control::{ControlTexts, Rendered};
use crate::lazy_registration::inputs;
use crate::lazy_registration::inputs::{HookScripts, TemplateInputs};
use crate::lazy_registration::{lua_string, LazyRegistration};
use crate::lazy_type::ModeChar;
use crate::loaded::LoadedPlugin;
use crate::merge;
use crate::order::{Key, SortedMap, SortedSet};
use crate::text;
use vstd::prelude::*;

verus! {

/// The head of a module of hooks.
pub const HOOKS_HEAD: &'static str = "-- Auto generated by rsplug\nreturn {\n  before = function()\n";

/// Between the scripts before and after the load.
pub const HOOKS_MIDDLE: &'static str = "  end,\n  after = function()\n";

/// The end of a module of hooks.
pub const HOOKS_TAIL: &'static str = "  end,\n}\n";

/// The head of the module that loads packages: the modules of hooks follow.
pub const PACKADD_HEAD: &'static str = "-- Auto generated by rsplug\nlocal hooks = ";

/// Before the packages to load at startup.
pub const PACKADD_STARTUP: &'static str = "\nlocal startup_plugins = ";

/// Before the packages to load with each package.
pub const PACKADD_FOLLOWERS: &'static str = "\nlocal followers = ";

/// The functions of the module that loads packages.
pub const PACKADD_TAIL: &'static str = "\nlocal state = {}\nlocal M = {}\n\nlocal function call(id, when)\n  local module = hooks[id]\n  if module then\n    require(module)[when]()\n  end\nend\n\nfunction M.packadd(id, startup)\n  if state[id] then\n    return\n  end\n  state[id] = 'loading'\n  local ok, err = pcall(function()\n    call(id, 'before')\n    vim.cmd.packadd { id, bang = startup or false }\n    call(id, 'after')\n  end)\n  if not ok then\n    state[id] = nil\n    error(err, 0)\n  end\n  state[id] = 'loaded'\n  for _, follower in ipairs(followers[id] or {}) do\n    M.packadd(follower)\n  end\nend\n\nfunction M.loaded(id)\n  return state[id] == 'loaded'\nend\n\nfunction M.startup()\n  for _, id in ipairs(startup_plugins) do\n    require '_rsplug'.packadd(id, true)\n  end\nend\n\nreturn M\n";

/// The head of the file of a file type: its name follows.
pub const FTPLUGIN_HEAD: &'static str = "-- Auto generated by rsplug\nrequire '_rsplug.on_ft'.load(";

/// Between a file type and its packages.
pub const FTPLUGIN_MIDDLE: &'static str = ", ";

/// The end of the file of a file type.
pub const FTPLUGIN_TAIL: &'static str = ")\n";

/// The module for file types.
pub const ON_FT: &'static str = "-- Auto generated by rsplug\nlocal M = {}\nlocal processed = {}\nlocal source = debug.getinfo(1, 'S').source:sub(2)\nlocal package_dir = vim.fn.fnamemodify(source, ':p:h:h:h')\nlocal gen_dir = vim.fn.fnamemodify(package_dir, ':h:h')\nlocal index\n\nlocal function load_index()\n  if index == nil then\n    index = false\n    local generation = vim.g.rsplug_generation or vim.fn.fnamemodify(package_dir, ':t')\n    local file = gen_dir .. '/generations/' .. generation .. '.json'\n    local ok, manifest = pcall(function()\n      return vim.json.decode(table.concat(vim.fn.readfile(file), '\\n'))\n    end)\n    if ok and type(manifest) == 'table' and type(manifest.runtime) == 'table' then\n      index = manifest.runtime.ftplugin or {}\n    end\n  end\n  return index\nend\n\nfunction M.get_ft_runtime_files(ft, id)\n  local known = load_index()\n  local files = {}\n  if known then\n    for _, file in ipairs((known[ft] or {})[id] or {}) do\n      files[#files + 1] = gen_dir .. '/' .. file\n    end\n    return files\n  end\n  local dir = gen_dir .. '/opt/' .. id\n  for _, pattern in ipairs { '.vim', '.lua', '_*.vim', '_*.lua', '/*.vim', '/*.lua' } do\n    vim.list_extend(files, vim.fn.globpath(dir, 'ftplugin/' .. ft .. pattern, true, true))\n  end\n  return files\nend\n\nfunction M.load(ft, ids)\n  if processed[ft] then\n    return\n  end\n  processed[ft] = true\n  local rsplug = require '_rsplug'\n  for _, id in ipairs(ids) do\n    if not rsplug.loaded(id) then\n      rsplug.packadd(id)\n      for _, file in ipairs(M.get_ft_runtime_files(ft, id)) do\n        vim.cmd.source(vim.fn.fnameescape(file))\n      end\n    end\n  end\nend\n\nreturn M\n";

/// The head of the file that waits for events: the events follow.
pub const EVENT_SETUP_HEAD: &'static str = "-- Auto generated by rsplug\nlocal group = vim.api.nvim_create_augroup('rsplug_on_event', { clear = true })\nfor _, event in ipairs ";

/// The end of the file that waits for events.
pub const EVENT_SETUP_TAIL: &'static str = " do\n  local builtin = vim.fn.exists('##' .. event) == 1\n  vim.api.nvim_create_autocmd(builtin and event or 'User', {\n    group = group,\n    pattern = not builtin and event or nil,\n    once = true,\n    callback = function(args)\n      require '_rsplug.on_event'.load(event, builtin, args)\n    end,\n  })\nend\n";

/// The head of the module for events: the packages follow.
pub const EVENT_HEAD: &'static str = "-- Auto generated by rsplug\nlocal event2pkgid = ";

/// The end of the module for events.
pub const EVENT_TAIL: &'static str = "\nlocal function groups_of(name)\n  local groups = {}\n  for _, autocmd in ipairs(vim.api.nvim_get_autocmds { event = name }) do\n    if autocmd.group then\n      groups[autocmd.group] = true\n    end\n  end\n  return groups\nend\n\nreturn {\n  load = function(event, builtin, args)\n    local name = builtin and event or 'User'\n    local before = groups_of(name)\n    for _, id in ipairs(event2pkgid[event] or {}) do\n      require '_rsplug'.packadd(id)\n    end\n    for group in pairs(groups_of(name)) do\n      if not before[group] then\n        vim.api.nvim_exec_autocmds(name, {\n          group = group,\n          pattern = not builtin and event or nil,\n          buffer = builtin and args.buf or nil,\n          modeline = false,\n          data = args.data,\n        })\n      end\n    end\n  end,\n}\n";

/// The head of the file that waits for functions.
pub const FUNC_SETUP_HEAD: &'static str = "-- Auto generated by rsplug\nlocal group = vim.api.nvim_create_augroup('rsplug_on_func', { clear = true })\nlocal function autoload_handler(func)\n  vim.api.nvim_create_autocmd('FuncUndefined', {\n    group = group,\n    pattern = func,\n    callback = function()\n      require '_rsplug.on_func'.load(func)\n    end,\n  })\nend\n";

/// The head of the module for functions: the packages follow.
pub const FUNC_HEAD: &'static str = "-- Auto generated by rsplug\nlocal func2pkgid = ";

/// The end of the module for functions.
pub const FUNC_TAIL: &'static str = "\nlocal called_autoload_prefix = {}\n\nlocal function packadd_all(func)\n  for _, id in ipairs(func2pkgid[func] or {}) do\n    require '_rsplug'.packadd(id)\n  end\nend\n\nreturn {\n  load = function(func)\n    local prefix = func:match '^(.*)#' or func\n    if called_autoload_prefix[prefix] then\n      return\n    end\n    called_autoload_prefix[prefix] = true\n    local save_eventignore = vim.o.eventignore\n    vim.o.eventignore = 'FuncUndefined'\n    local ok, err = pcall(packadd_all, func)\n    vim.o.eventignore = save_eventignore\n    called_autoload_prefix[prefix] = nil\n    if not ok then\n      error(err, 0)\n    end\n  end,\n}\n";

/// The head of the file that waits for commands: the commands follow.
pub const CMD_SETUP_HEAD: &'static str = "-- Auto generated by rsplug\nfor _, cmd in ipairs ";

/// The end of the file that waits for commands.
pub const CMD_SETUP_TAIL: &'static str = " do\n  vim.api.nvim_create_user_command(cmd, function(args)\n    require '_rsplug.on_cmd'.run(cmd, args)\n  end, {\n    bang = true,\n    nargs = '*',\n    range = true,\n    complete = function(_, line)\n      return require '_rsplug.on_cmd'.complete(cmd, line)\n    end,\n  })\nend\n";

/// The head of the module for commands: the packages follow.
pub const CMD_HEAD: &'static str = "-- Auto generated by rsplug\nlocal cmd2pkgid = ";

/// The end of the module for commands.
pub const CMD_TAIL: &'static str = "\nlocal function packadd_all(cmd)\n  pcall(vim.api.nvim_del_user_command, cmd)\n  for _, id in ipairs(cmd2pkgid[cmd] or {}) do\n    require '_rsplug'.packadd(id)\n  end\n  return vim.api.nvim_get_commands { builtin = false }[cmd]\nend\n\nlocal function command_line(cmd, args, cmdinfo)\n  local range = ''\n  if cmdinfo and cmdinfo.range and args.range == 2 then\n    range = args.line1 .. ',' .. args.line2\n  elseif cmdinfo and cmdinfo.range and args.range == 1 then\n    range = tostring(args.line1)\n  end\n  local mods = args.mods ~= '' and args.mods .. ' ' or ''\n  local bang = args.bang and '!' or ''\n  local rest = args.args ~= '' and ' ' .. args.args or ''\n  return mods .. range .. cmd .. bang .. rest\nend\n\nreturn {\n  run = function(cmd, args)\n    local cmdinfo = packadd_all(cmd)\n    vim.cmd(command_line(cmd, args, cmdinfo))\n  end,\n  complete = function(cmd, line)\n    packadd_all(cmd)\n    return vim.fn.getcompletion(line, 'cmdline')\n  end,\n}\n";

/// The file that waits for modules.
pub const LUA_SETUP: &'static str = "-- Auto generated by rsplug\nlocal loaders = package.loaders or package.searchers\nlocal function search(name)\n  if name:match '^_rsplug' then\n    return nil\n  end\n  local on_lua = require '_rsplug.on_lua'\n  local found = on_lua.search(name)\n  if found and on_lua.finished() then\n    for i = #loaders, 1, -1 do\n      if loaders[i] == search then\n        table.remove(loaders, i)\n      end\n    end\n  end\n  return found\nend\ntable.insert(loaders, 2, search)\n";

/// The head of the module for modules: the packages follow.
pub const LUA_HEAD: &'static str = "-- Auto generated by rsplug\nlocal luam2pkgid = ";

/// Before the modules of each package.
pub const LUA_MIDDLE: &'static str = "\nlocal pkgid2luam = ";

/// The end of the module for modules.
pub const LUA_TAIL: &'static str = "\nlocal pending = {}\n\nlocal function satisfied(root)\n  for _, id in ipairs(luam2pkgid[root]) do\n    if not require '_rsplug'.loaded(id) then\n      return false\n    end\n  end\n  return true\nend\n\nfor root in pairs(luam2pkgid) do\n  if not satisfied(root) then\n    pending[root] = true\n  end\nend\n\nlocal function packadd_all(root)\n  for _, id in ipairs(luam2pkgid[root]) do\n    require '_rsplug'.packadd(id)\n    for _, other in ipairs(pkgid2luam[id] or {}) do\n      if satisfied(other) then\n        pending[other] = nil\n      end\n    end\n  end\nend\n\nreturn {\n  finished = function()\n    return next(pending) == nil\n  end,\n  search = function(name)\n    local root = name:match '^[^./]+'\n    if not root or not pending[root] then\n      return nil\n    end\n    pending[root] = nil\n    local ok, err = pcall(packadd_all, root)\n    if not ok then\n      pending[root] = true\n      error(err, 0)\n    end\n    local path = name:gsub('%.', '/')\n    for _, file in ipairs { 'lua/' .. path .. '.lua', 'lua/' .. path .. '/init.lua' } do\n      local found = vim.api.nvim_get_runtime_file(file, false)[1]\n      if found then\n        return assert(loadfile(found))\n      end\n    end\n    return nil\n  end,\n}\n";

/// The head of the file that waits for modes: the modes follow.
pub const MAP_SETUP_HEAD: &'static str = "-- Auto generated by rsplug\nlocal pending = {}\nfor _, mode in ipairs ";

/// The end of the file that waits for modes.
pub const MAP_SETUP_TAIL: &'static str = " do\n  pending[mode] = true\nend\nlocal group = vim.api.nvim_create_augroup('rsplug_on_map', { clear = true })\nlocal kinds = {\n  n = { '', 'n' },\n  o = { '', 'o' },\n  v = { '', 'v', 'x' },\n  s = { 'v', 's' },\n  i = { '!', 'i', 'l' },\n  c = { '!', 'c', 'l' },\n  t = { 't' },\n}\nlocal names = { V = 'v', ['\\22'] = 'v', S = 's', ['\\19'] = 's', R = 'i' }\nlocal function prepare(mode)\n  local name = mode:sub(1, 2) == 'no' and 'o' or mode:sub(1, 1)\n  for _, kind in ipairs(kinds[names[name] or name] or {}) do\n    if pending[kind] then\n      pending[kind] = nil\n      require '_rsplug.on_map'.setup(kind)\n    end\n  end\n  if next(pending) == nil then\n    vim.api.nvim_clear_autocmds { group = group }\n  end\nend\nvim.api.nvim_create_autocmd('VimEnter', {\n  group = group,\n  once = true,\n  callback = function()\n    prepare 'n'\n  end,\n})\nvim.api.nvim_create_autocmd('ModeChanged', {\n  group = group,\n  callback = function()\n    prepare(vim.v.event.new_mode)\n  end,\n})\n";

/// The module for mappings.
pub const MAP_MODULE: &'static str = "-- Auto generated by rsplug\nreturn {\n  setup = function(mode)\n    for pattern, ids in pairs(require('_rsplug.on_map.mode_' .. mode)) do\n      vim.keymap.set(mode, pattern, function()\n        pcall(vim.keymap.del, mode, pattern)\n        for _, id in ipairs(ids) do\n          require '_rsplug'.packadd(id)\n        end\n        local keys = vim.api.nvim_replace_termcodes(pattern, true, true, true)\n        vim.api.nvim_feedkeys(keys, 'm', false)\n      end)\n    end\n  end,\n}\n";

/// The head of the module of a mode: the packages of its mappings follow.
pub const MODE_HEAD: &'static str = "-- Auto generated by rsplug\nreturn ";

/// The end of a line.
pub const LINE_END: &'static str = "\n";

/// Literals with a comma behind each.
pub open spec fn literals(list: Seq<Seq<char>>) -> Seq<char>
    decreases list.len(),
{
    if list.len() == 0 {
        Seq::empty()
    } else {
        literals(list.drop_last()) + lazy_registration::lua_literal(list.last()) + ","@
    }
}

/// A list of literals.
pub open spec fn list_text(list: Seq<Seq<char>>) -> Seq<char> {
    "{"@ + literals(list) + "}"@
}

/// Records of lists, each on a line.
pub open spec fn list_records(list: Seq<(Seq<char>, Seq<Seq<char>>)>) -> Seq<char>
    decreases list.len(),
{
    if list.len() == 0 {
        Seq::empty()
    } else {
        list_records(list.drop_last()) + "  ["@ + lazy_registration::lua_literal(list.last().0)
            + "] = "@ + list_text(list.last().1) + ",\n"@
    }
}

/// A table of lists.
pub open spec fn list_table(list: Seq<(Seq<char>, Seq<Seq<char>>)>) -> Seq<char> {
    "{\n"@ + list_records(list) + "}"@
}

/// Records of names, each on a line.
pub open spec fn name_records(list: Seq<(Seq<char>, Seq<char>)>) -> Seq<char>
    decreases list.len(),
{
    if list.len() == 0 {
        Seq::empty()
    } else {
        name_records(list.drop_last()) + "  ["@ + lazy_registration::lua_literal(list.last().0)
            + "] = "@ + lazy_registration::lua_literal(list.last().1) + ",\n"@
    }
}

/// A table of names.
pub open spec fn name_table(list: Seq<(Seq<char>, Seq<char>)>) -> Seq<char> {
    "{\n"@ + name_records(list) + "}"@
}

/// The records of a map in the order of their keys.
pub open spec fn records_of(m: SortedMap<String, Vec<String>>) -> Seq<
    (Seq<char>, Seq<Seq<char>>),
> {
    Seq::new(m.keys().len(), |i: int| (m.keys()[i], text::strings(m.values()[i]@)))
}

/// The records of a map of sets in the order of their keys.
pub open spec fn set_records_of(m: SortedMap<String, SortedSet<String>>) -> Seq<
    (Seq<char>, Seq<Seq<char>>),
> {
    Seq::new(m.keys().len(), |i: int| (m.keys()[i], m.values()[i].members()))
}

fn push_literals(out: &mut String, list: &Vec<String>)
    ensures
        final(out)@ == old(out)@ + literals(text::strings(list@)),
{
    let ghost before = out@;
    let ghost all = text::strings(list@);
    let mut i: usize = 0;
    proof {
        assert(all.take(0) =~= Seq::<Seq<char>>::empty());
        assert(before + literals(all.take(0)) =~= before);
    }
    while i < list.len()
        invariant
            i <= list@.len(),
            all == text::strings(list@),
            out@ == before + literals(all.take(i as int)),
        decreases list@.len() - i,
    {
        let ghost front = literals(all.take(i as int));
        proof {
            assert(all.take(i as int + 1).drop_last() =~= all.take(i as int));
            assert(all.take(i as int + 1).last() == list@[i as int]@);
        }
        out.append(lua_string(list[i].as_str()).as_str());
        out.append(",");
        assert(out@ =~= before + (front + lazy_registration::lua_literal(list@[i as int]@) + ","@));
        i = i + 1;
    }
    assert(all.take(i as int) =~= all);
}

fn push_list(out: &mut String, list: &Vec<String>)
    ensures
        final(out)@ == old(out)@ + list_text(text::strings(list@)),
{
    let ghost before = out@;
    out.append("{");
    push_literals(out, list);
    out.append("}");
    assert(out@ =~= before + list_text(text::strings(list@)));
}

fn push_list_record(out: &mut String, key: &str, list: &Vec<String>)
    ensures
        final(out)@ == old(out)@ + "  ["@ + lazy_registration::lua_literal(key@) + "] = "@
            + list_text(text::strings(list@)) + ",\n"@,
{
    out.append("  [");
    out.append(lua_string(key).as_str());
    out.append("] = ");
    push_list(out, list);
    out.append(",\n");
}

/// Appends the table of a map.
fn push_map(out: &mut String, m: &SortedMap<String, Vec<String>>)
    ensures
        final(out)@ == old(out)@ + list_table(records_of(*m)),
{
    let ghost before = out@;
    let ghost all = records_of(*m);
    out.append("{\n");
    let ghost head = out@;
    let n: usize = m.len();
    let mut i: usize = 0;
    proof {
        assert(all.take(0) =~= Seq::<(Seq<char>, Seq<Seq<char>>)>::empty());
        assert(head + list_records(all.take(0)) =~= head);
    }
    while i < n
        invariant
            i <= n,
            n == m.keys().len(),
            n == m.values().len(),
            all == records_of(*m),
            out@ == head + list_records(all.take(i as int)),
        decreases n - i,
    {
        let ghost front = list_records(all.take(i as int));
        proof {
            assert(all.take(i as int + 1).drop_last() =~= all.take(i as int));
            assert(all.take(i as int + 1).last() == all[i as int]);
        }
        push_list_record(out, m.key_at(i).as_str(), m.value_at(i));
        proof {
            let e = all[i as int];
            assert(out@ =~= head + (front + "  ["@ + lazy_registration::lua_literal(e.0) + "] = "@
                + list_text(e.1) + ",\n"@));
        }
        i = i + 1;
    }
    assert(all.take(i as int) =~= all);
    out.append("}");
    assert(out@ =~= before + list_table(all));
}

/// Appends the table of followers.
fn push_followers(out: &mut String, list: &Vec<(String, Vec<String>)>)
    ensures
        final(out)@ == old(out)@ + list_table(inputs::followers(list@)),
{
    let ghost before = out@;
    let ghost all = inputs::followers(list@);
    out.append("{\n");
    let ghost head = out@;
    let mut i: usize = 0;
    proof {
        assert(all.take(0) =~= Seq::<(Seq<char>, Seq<Seq<char>>)>::empty());
        assert(head + list_records(all.take(0)) =~= head);
    }
    while i < list.len()
        invariant
            i <= list@.len(),
            all == inputs::followers(list@),
            out@ == head + list_records(all.take(i as int)),
        decreases list@.len() - i,
    {
        let ghost front = list_records(all.take(i as int));
        proof {
            assert(all.take(i as int + 1).drop_last() =~= all.take(i as int));
            assert(all.take(i as int + 1).last() == all[i as int]);
        }
        push_list_record(out, list[i].0.as_str(), &list[i].1);
        proof {
            let e = all[i as int];
            assert(out@ =~= head + (front + "  ["@ + lazy_registration::lua_literal(e.0) + "] = "@
                + list_text(e.1) + ",\n"@));
        }
        i = i + 1;
    }
    assert(all.take(i as int) =~= all);
    out.append("}");
    assert(out@ =~= before + list_table(all));
}

fn set_list(set: &SortedSet<String>) -> (list: Vec<String>)
    ensures
        text::strings(list@) == set.members(),
{
    let mut list: Vec<String> = Vec::new();
    let n: usize = set.len();
    let mut i: usize = 0;
    while i < n
        invariant
            i <= n,
            n == set.members().len(),
            text::strings(list@) == set.members().take(i as int),
        decreases n - i,
    {
        let ghost before = list@;
        list.push(set.at(i).clone());
        proof {
            assert(text::strings(list@) =~= text::strings(before).push(set.members()[i as int]));
            assert(set.members().take(i as int + 1) =~= set.members().take(i as int).push(
                set.members()[i as int],
            ));
        }
        i = i + 1;
    }
    assert(set.members().take(i as int) =~= set.members());
    list
}

/// Appends the table of a map of sets.
fn push_sets(out: &mut String, m: &SortedMap<String, SortedSet<String>>)
    ensures
        final(out)@ == old(out)@ + list_table(set_records_of(*m)),
{
    let ghost before = out@;
    let ghost all = set_records_of(*m);
    out.append("{\n");
    let ghost head = out@;
    let n: usize = m.len();
    let mut i: usize = 0;
    proof {
        assert(all.take(0) =~= Seq::<(Seq<char>, Seq<Seq<char>>)>::empty());
        assert(head + list_records(all.take(0)) =~= head);
    }
    while i < n
        invariant
            i <= n,
            n == m.keys().len(),
            n == m.values().len(),
            all == set_records_of(*m),
            out@ == head + list_records(all.take(i as int)),
        decreases n - i,
    {
        let ghost front = list_records(all.take(i as int));
        proof {
            assert(all.take(i as int + 1).drop_last() =~= all.take(i as int));
            assert(all.take(i as int + 1).last() == all[i as int]);
        }
        let list = set_list(m.value_at(i));
        push_list_record(out, m.key_at(i).as_str(), &list);
        proof {
            let e = all[i as int];
            assert(out@ =~= head + (front + "  ["@ + lazy_registration::lua_literal(e.0) + "] = "@
                + list_text(e.1) + ",\n"@));
        }
        i = i + 1;
    }
    assert(all.take(i as int) =~= all);
    out.append("}");
    assert(out@ =~= before + list_table(all));
}

/// Names with names.
pub open spec fn name_pairs(list: Seq<(String, String)>) -> Seq<(Seq<char>, Seq<char>)> {
    list.map_values(|e: (String, String)| (e.0@, e.1@))
}

/// Appends the table of names.
fn push_names(out: &mut String, list: &Vec<(String, String)>)
    ensures
        final(out)@ == old(out)@ + name_table(name_pairs(list@)),
{
    let ghost before = out@;
    let ghost all = name_pairs(list@);
    out.append("{\n");
    let ghost head = out@;
    let mut i: usize = 0;
    proof {
        assert(all.take(0) =~= Seq::<(Seq<char>, Seq<char>)>::empty());
        assert(head + name_records(all.take(0)) =~= head);
    }
    while i < list.len()
        invariant
            i <= list@.len(),
            all == name_pairs(list@),
            out@ == head + name_records(all.take(i as int)),
        decreases list@.len() - i,
    {
        let ghost front = name_records(all.take(i as int));
        proof {
            assert(all.take(i as int + 1).drop_last() =~= all.take(i as int));
            assert(all.take(i as int + 1).last() == all[i as int]);
        }
        out.append("  [");
        out.append(lua_string(list[i].0.as_str()).as_str());
        out.append("] = ");
        out.append(lua_string(list[i].1.as_str()).as_str());
        out.append(",\n");
        proof {
            let e = all[i as int];
            assert(out@ =~= head + (front + "  ["@ + lazy_registration::lua_literal(e.0) + "] = "@
                + lazy_registration::lua_literal(e.1) + ",\n"@));
        }
        i = i + 1;
    }
    assert(all.take(i as int) =~= all);
    out.append("}");
    assert(out@ =~= before + name_table(all));
}

/// A module of hooks: the scripts before and after the load of a package, each in a function of
/// its own.
pub open spec fn hooks_text(before: Seq<Seq<char>>, after: Seq<Seq<char>>) -> Seq<char> {
    HOOKS_HEAD@ + control::wrapped_scripts(before) + HOOKS_MIDDLE@ + control::wrapped_scripts(after)
        + HOOKS_TAIL@
}

/// A module of hooks.
pub fn render_hooks(before: &Vec<String>, after: &Vec<String>) -> (rendered: String)
    ensures
        rendered@ == hooks_text(text::strings(before@), text::strings(after@)),
{
    let mut rendered = String::from_str(HOOKS_HEAD);
    control::push_scripts(&mut rendered, before);
    rendered.append(HOOKS_MIDDLE);
    control::push_scripts(&mut rendered, after);
    rendered.append(HOOKS_TAIL);
    rendered
}

/// The module that loads packages.
pub open spec fn packadd_text(
    hooks: Seq<(Seq<char>, Seq<char>)>,
    startup: Seq<Seq<char>>,
    followers: Seq<(Seq<char>, Seq<Seq<char>>)>,
) -> Seq<char> {
    PACKADD_HEAD@ + name_table(hooks) + PACKADD_STARTUP@ + list_text(startup) + PACKADD_FOLLOWERS@
        + list_table(followers) + PACKADD_TAIL@
}

/// The module that loads packages.
pub fn render_packadd(
    hooks: &Vec<(String, String)>,
    startup: &Vec<String>,
    followers: &Vec<(String, Vec<String>)>,
) -> (rendered: String)
    ensures
        rendered@ == packadd_text(
            name_pairs(hooks@),
            text::strings(startup@),
            inputs::followers(followers@),
        ),
{
    let mut rendered = String::from_str(PACKADD_HEAD);
    push_names(&mut rendered, hooks);
    rendered.append(PACKADD_STARTUP);
    push_list(&mut rendered, startup);
    rendered.append(PACKADD_FOLLOWERS);
    push_followers(&mut rendered, followers);
    rendered.append(PACKADD_TAIL);
    rendered
}

/// The file of a file type.
pub open spec fn ftplugin_text(ft: Seq<char>, ids: Seq<Seq<char>>) -> Seq<char> {
    FTPLUGIN_HEAD@ + lazy_registration::lua_literal(ft) + FTPLUGIN_MIDDLE@ + list_text(ids)
        + FTPLUGIN_TAIL@
}

/// The file of a file type.
pub fn render_ftplugin(ft: &str, ids: &Vec<String>) -> (rendered: String)
    ensures
        rendered@ == ftplugin_text(ft@, text::strings(ids@)),
{
    let mut rendered = String::from_str(FTPLUGIN_HEAD);
    rendered.append(lua_string(ft).as_str());
    rendered.append(FTPLUGIN_MIDDLE);
    push_list(&mut rendered, ids);
    rendered.append(FTPLUGIN_TAIL);
    rendered
}

/// A text with a list in it.
pub open spec fn around_list(head: Seq<char>, list: Seq<Seq<char>>, tail: Seq<char>) -> Seq<char> {
    head + list_text(list) + tail
}

/// A text with a table in it.
pub open spec fn around_map(
    head: Seq<char>,
    m: SortedMap<String, Vec<String>>,
    tail: Seq<char>,
) -> Seq<char> {
    head + list_table(records_of(m)) + tail
}

fn key_list(m: &SortedMap<String, Vec<String>>) -> (list: Vec<String>)
    ensures
        text::strings(list@) == m.keys(),
{
    let mut list: Vec<String> = Vec::new();
    let n: usize = m.len();
    let mut i: usize = 0;
    while i < n
        invariant
            i <= n,
            n == m.keys().len(),
            text::strings(list@) == m.keys().take(i as int),
        decreases n - i,
    {
        let ghost before = list@;
        list.push(m.key_at(i).clone());
        proof {
            assert(text::strings(list@) =~= text::strings(before).push(m.keys()[i as int]));
            assert(m.keys().take(i as int + 1) =~= m.keys().take(i as int).push(
                m.keys()[i as int],
            ));
        }
        i = i + 1;
    }
    assert(m.keys().take(i as int) =~= m.keys());
    list
}

fn with_list(head: &str, list: &Vec<String>, tail: &str) -> (rendered: String)
    ensures
        rendered@ == around_list(head@, text::strings(list@), tail@),
{
    let mut rendered = String::from_str(head);
    push_list(&mut rendered, list);
    rendered.append(tail);
    rendered
}

fn with_map(head: &str, m: &SortedMap<String, Vec<String>>, tail: &str) -> (rendered: String)
    ensures
        rendered@ == around_map(head@, *m, tail@),
{
    let mut rendered = String::from_str(head);
    push_map(&mut rendered, m);
    rendered.append(tail);
    rendered
}

/// The file that waits for events.
pub fn render_on_event_setup(event2pkgid: &SortedMap<String, Vec<String>>) -> (rendered: String)
    ensures
        rendered@ == around_list(EVENT_SETUP_HEAD@, event2pkgid.keys(), EVENT_SETUP_TAIL@),
{
    with_list(EVENT_SETUP_HEAD, &key_list(event2pkgid), EVENT_SETUP_TAIL)
}

/// The module for events.
pub fn render_on_event(event2pkgid: &SortedMap<String, Vec<String>>) -> (rendered: String)
    ensures
        rendered@ == around_map(EVENT_HEAD@, *event2pkgid, EVENT_TAIL@),
{
    with_map(EVENT_HEAD, event2pkgid, EVENT_TAIL)
}

/// The file that waits for commands.
pub fn render_on_cmd_setup(cmd2pkgid: &SortedMap<String, Vec<String>>) -> (rendered: String)
    ensures
        rendered@ == around_list(CMD_SETUP_HEAD@, cmd2pkgid.keys(), CMD_SETUP_TAIL@),
{
    with_list(CMD_SETUP_HEAD, &key_list(cmd2pkgid), CMD_SETUP_TAIL)
}

/// The module for commands.
pub fn render_on_cmd(cmd2pkgid: &SortedMap<String, Vec<String>>) -> (rendered: String)
    ensures
        rendered@ == around_map(CMD_HEAD@, *cmd2pkgid, CMD_TAIL@),
{
    with_map(CMD_HEAD, cmd2pkgid, CMD_TAIL)
}

/// Calls that wait for functions, each on a line.
pub open spec fn handler_lines(list: Seq<Seq<char>>) -> Seq<char>
    decreases list.len(),
{
    if list.len() == 0 {
        Seq::empty()
    } else {
        handler_lines(list.drop_last()) + "autoload_handler("@ + lazy_registration::lua_literal(
            list.last(),
        ) + ")\n"@
    }
}

/// The file that waits for functions.
pub open spec fn func_setup_text(funcs: Seq<Seq<char>>) -> Seq<char> {
    FUNC_SETUP_HEAD@ + handler_lines(funcs)
}

/// The file that waits for functions.
pub fn render_on_func_setup(func2pkgid: &SortedMap<String, Vec<String>>) -> (rendered: String)
    ensures
        rendered@ == func_setup_text(func2pkgid.keys()),
{
    let ghost all = func2pkgid.keys();
    let mut rendered = String::from_str(FUNC_SETUP_HEAD);
    let ghost head = rendered@;
    let n: usize = func2pkgid.len();
    let mut i: usize = 0;
    proof {
        assert(all.take(0) =~= Seq::<Seq<char>>::empty());
        assert(head + handler_lines(all.take(0)) =~= head);
    }
    while i < n
        invariant
            i <= n,
            n == all.len(),
            all == func2pkgid.keys(),
            rendered@ == head + handler_lines(all.take(i as int)),
        decreases n - i,
    {
        let ghost front = handler_lines(all.take(i as int));
        proof {
            assert(all.take(i as int + 1).drop_last() =~= all.take(i as int));
            assert(all.take(i as int + 1).last() == all[i as int]);
        }
        rendered.append("autoload_handler(");
        rendered.append(lua_string(func2pkgid.key_at(i).as_str()).as_str());
        rendered.append(")\n");
        assert(rendered@ =~= head + (front + "autoload_handler("@ + lazy_registration::lua_literal(
            all[i as int],
        ) + ")\n"@));
        i = i + 1;
    }
    assert(all.take(i as int) =~= all);
    rendered
}

/// The module for functions.
pub fn render_on_func(func2pkgid: &SortedMap<String, Vec<String>>) -> (rendered: String)
    ensures
        rendered@ == around_map(FUNC_HEAD@, *func2pkgid, FUNC_TAIL@),
{
    with_map(FUNC_HEAD, func2pkgid, FUNC_TAIL)
}

/// The module for modules.
pub open spec fn lua_text(
    luam2pkgid: SortedMap<String, Vec<String>>,
    pkgid2luam: SortedMap<String, SortedSet<String>>,
) -> Seq<char> {
    LUA_HEAD@ + list_table(records_of(luam2pkgid)) + LUA_MIDDLE@ + list_table(
        set_records_of(pkgid2luam),
    ) + LUA_TAIL@
}

/// The module for modules.
pub fn render_on_lua(
    luam2pkgid: &SortedMap<String, Vec<String>>,
    pkgid2luam: &SortedMap<String, SortedSet<String>>,
) -> (rendered: String)
    ensures
        rendered@ == lua_text(*luam2pkgid, *pkgid2luam),
{
    let mut rendered = String::from_str(LUA_HEAD);
    push_map(&mut rendered, luam2pkgid);
    rendered.append(LUA_MIDDLE);
    push_sets(&mut rendered, pkgid2luam);
    rendered.append(LUA_TAIL);
    rendered
}

/// A mode as text: nothing for all modes.
pub open spec fn mode_text(mode: Option<char>) -> Seq<char> {
    match mode {
        Some(c) => seq![c],
        None => Seq::empty(),
    }
}

/// Modes as texts.
pub open spec fn mode_texts(modes: Seq<Option<char>>) -> Seq<Seq<char>> {
    modes.map_values(|m: Option<char>| mode_text(m))
}

/// The file that waits for modes.
pub fn render_on_map_setup(
    keypattern2pkgid: &SortedMap<ModeChar, SortedMap<String, Vec<String>>>,
) -> (rendered: String)
    ensures
        rendered@ == around_list(
            MAP_SETUP_HEAD@,
            mode_texts(keypattern2pkgid.keys()),
            MAP_SETUP_TAIL@,
        ),
{
    let ghost wanted = mode_texts(keypattern2pkgid.keys());
    let mut modes: Vec<String> = Vec::new();
    let n: usize = keypattern2pkgid.len();
    let mut i: usize = 0;
    while i < n
        invariant
            i <= n,
            n == keypattern2pkgid.keys().len(),
            wanted == mode_texts(keypattern2pkgid.keys()),
            text::strings(modes@) == wanted.take(i as int),
        decreases n - i,
    {
        let ghost before = modes@;
        modes.push(keypattern2pkgid.key_at(i).to_text());
        proof {
            assert(text::strings(before).len() == wanted.take(i as int).len());
            assert(modes@[i as int]@ == wanted[i as int]);
            assert(text::strings(modes@) =~= text::strings(before).push(wanted[i as int]));
            assert(wanted.take(i as int + 1) =~= wanted.take(i as int).push(wanted[i as int]));
        }
        i = i + 1;
    }
    assert(wanted.take(i as int) =~= wanted);
    with_list(MAP_SETUP_HEAD, &modes, MAP_SETUP_TAIL)
}

/// The module of a mode.
pub fn render_mode(patterns: &SortedMap<String, Vec<String>>) -> (rendered: String)
    ensures
        rendered@ == around_map(MODE_HEAD@, *patterns, LINE_END@),
{
    with_map(MODE_HEAD, patterns, LINE_END)
}

/// The bytes of a text.
pub open spec fn bytes_text(s: Seq<char>) -> Seq<u8> {
    vstd::utf8::encode_utf8(s)
}

/// The rendered hooks of packages.
pub open spec fn is_hook_texts(datas: Seq<Vec<u8>>, hooks: Seq<HookScripts>) -> bool {
    &&& datas.len() == hooks.len()
    &&& forall|i: int|
        0 <= i < datas.len() ==> (#[trigger] datas[i])@ == bytes_text(
            hooks_text(text::strings(hooks[i].before@), text::strings(hooks[i].after@)),
        )
}

fn hook_texts(hooks: &Vec<HookScripts>) -> (datas: Vec<Vec<u8>>)
    ensures
        is_hook_texts(datas@, hooks@),
{
    let mut datas: Vec<Vec<u8>> = Vec::new();
    let mut i: usize = 0;
    while i < hooks.len()
        invariant
            i <= hooks@.len(),
            datas@.len() == i,
            forall|k: int|
                0 <= k < i ==> (#[trigger] datas@[k])@ == bytes_text(
                    hooks_text(text::strings(hooks@[k].before@), text::strings(hooks@[k].after@)),
                ),
        decreases hooks@.len() - i,
    {
        let rendered = render_hooks(&hooks[i].before, &hooks[i].after);
        datas.push(control::bytes_of(rendered.as_str()));
        i = i + 1;
    }
    datas
}

/// The rendered files of file types.
pub open spec fn is_ft_texts(datas: Seq<Vec<u8>>, fts: SortedMap<String, Vec<String>>) -> bool {
    &&& datas.len() == fts.keys().len()
    &&& forall|i: int|
        0 <= i < datas.len() ==> (#[trigger] datas[i])@ == bytes_text(
            ftplugin_text(fts.keys()[i], text::strings(fts.values()[i]@)),
        )
}

fn ft_texts(fts: &SortedMap<String, Vec<String>>) -> (datas: Vec<Vec<u8>>)
    ensures
        is_ft_texts(datas@, *fts),
{
    let mut datas: Vec<Vec<u8>> = Vec::new();
    let n: usize = fts.len();
    let mut i: usize = 0;
    while i < n
        invariant
            i <= n,
            n == fts.keys().len(),
            n == fts.values().len(),
            datas@.len() == i,
            forall|k: int|
                0 <= k < i ==> (#[trigger] datas@[k])@ == bytes_text(
                    ftplugin_text(fts.keys()[k], text::strings(fts.values()[k]@)),
                ),
        decreases n - i,
    {
        let rendered = render_ftplugin(fts.key_at(i).as_str(), fts.value_at(i));
        datas.push(control::bytes_of(rendered.as_str()));
        i = i + 1;
    }
    datas
}

/// The rendered modules of modes.
pub open spec fn is_mode_texts(
    datas: Seq<Vec<u8>>,
    keys: SortedMap<ModeChar, SortedMap<String, Vec<String>>>,
) -> bool {
    &&& datas.len() == keys.keys().len()
    &&& forall|i: int|
        0 <= i < datas.len() ==> (#[trigger] datas[i])@ == bytes_text(
            around_map(MODE_HEAD@, keys.values()[i], LINE_END@),
        )
}

fn mode_modules(keys: &SortedMap<ModeChar, SortedMap<String, Vec<String>>>) -> (datas: Vec<Vec<u8>>)
    ensures
        is_mode_texts(datas@, *keys),
{
    let mut datas: Vec<Vec<u8>> = Vec::new();
    let n: usize = keys.len();
    let mut i: usize = 0;
    while i < n
        invariant
            i <= n,
            n == keys.keys().len(),
            n == keys.values().len(),
            datas@.len() == i,
            forall|k: int|
                0 <= k < i ==> (#[trigger] datas@[k])@ == bytes_text(
                    around_map(MODE_HEAD@, keys.values()[k], LINE_END@),
                ),
        decreases n - i,
    {
        let rendered = render_mode(keys.value_at(i));
        datas.push(control::bytes_of(rendered.as_str()));
        i = i + 1;
    }
    datas
}

/// The files of a sort of trigger.
pub open spec fn is_pair(pair: Rendered, setup: Seq<char>, runtime: Seq<char>) -> bool {
    pair.setup@ == bytes_text(setup) && pair.runtime@ == bytes_text(runtime)
}

fn pair(setup: &str, runtime: &str) -> (pair: Rendered)
    ensures
        is_pair(pair, setup@, runtime@),
{
    Rendered { setup: control::bytes_of(setup), runtime: control::bytes_of(runtime) }
}

/// The rendered files of a registration.
pub open spec fn is_rendered(
    texts: ControlTexts,
    r: LazyRegistration,
    t: TemplateInputs,
    help: Seq<u8>,
) -> bool {
    &&& texts.help@ == help
    &&& is_hook_texts(texts.hooks@, t.hooks@)
    &&& texts.init@ == bytes_text(
        packadd_text(
            control::modules_of(t.hooks@, texts.hooks@),
            text::strings(t.startup_plugins@),
            inputs::followers(t.source2pkgid@),
        ),
    )
    &&& texts.on_ft@ == bytes_text(ON_FT@)
    &&& is_ft_texts(texts.ftplugins@, r.ft2pkgid)
    &&& is_pair(
        texts.on_event,
        around_list(EVENT_SETUP_HEAD@, r.event2pkgid.keys(), EVENT_SETUP_TAIL@),
        around_map(EVENT_HEAD@, r.event2pkgid, EVENT_TAIL@),
    )
    &&& is_pair(
        texts.on_func,
        func_setup_text(r.func2pkgid.keys()),
        around_map(FUNC_HEAD@, r.func2pkgid, FUNC_TAIL@),
    )
    &&& is_pair(
        texts.on_cmd,
        around_list(CMD_SETUP_HEAD@, r.cmd2pkgid.keys(), CMD_SETUP_TAIL@),
        around_map(CMD_HEAD@, r.cmd2pkgid, CMD_TAIL@),
    )
    &&& is_pair(texts.on_lua, LUA_SETUP@, lua_text(r.luam2pkgid, t.pkgid2luam))
    &&& is_pair(
        texts.on_map,
        around_list(MAP_SETUP_HEAD@, mode_texts(r.keypattern2pkgid.keys()), MAP_SETUP_TAIL@),
        MAP_MODULE@,
    )
    &&& is_mode_texts(texts.modes@, r.keypattern2pkgid)
}

impl LazyRegistration {
    /// The rendered files of a registration; `help` is the help file.
    pub fn render(&self, t: &TemplateInputs, help: Vec<u8>) -> (texts: ControlTexts)
        ensures
            is_rendered(texts, *self, *t, help@),
    {
        let hooks = hook_texts(&t.hooks);
        let modules = control::hook_modules(&t.hooks, &hooks);
        assert(name_pairs(modules@) =~= control::modules_of(t.hooks@, hooks@));
        let init = render_packadd(&modules, &t.startup_plugins, &t.source2pkgid);
        ControlTexts {
            help,
            hooks,
            init: control::bytes_of(init.as_str()),
            on_ft: control::bytes_of(ON_FT),
            ftplugins: ft_texts(&self.ft2pkgid),
            on_event: pair(
                render_on_event_setup(&self.event2pkgid).as_str(),
                render_on_event(&self.event2pkgid).as_str(),
            ),
            on_func: pair(
                render_on_func_setup(&self.func2pkgid).as_str(),
                render_on_func(&self.func2pkgid).as_str(),
            ),
            on_cmd: pair(
                render_on_cmd_setup(&self.cmd2pkgid).as_str(),
                render_on_cmd(&self.cmd2pkgid).as_str(),
            ),
            on_lua: pair(LUA_SETUP, render_on_lua(&self.luam2pkgid, &t.pkgid2luam).as_str()),
            on_map: pair(render_on_map_setup(&self.keypattern2pkgid).as_str(), MAP_MODULE),
            modes: mode_modules(&self.keypattern2pkgid),
        }
    }

    /// The packages that are generated for lazy loading; none if nothing is registered.
    pub fn packages(&self, help: Vec<u8>) -> (plugs: Vec<LoadedPlugin>)
        requires
            self.wf(),
        ensures
            control::all_wf(plugs@),
            lazy_registration::registers_nothing(self@) ==> plugs@.len() == 0,
            !lazy_registration::registers_nothing(self@) ==> exists|
                t: TemplateInputs,
                texts: ControlTexts,
            | #[trigger]
                is_rendered(texts, *self, t, help@) && inputs::is_inputs(t, *self)
                    && merge::plugin_models(plugs@) == control::control(
                    *self,
                    text::strings(t.startup_scripts@),
                    texts,
                ),
    {
        match self.template_inputs() {
            None => Vec::new(),
            Some(t) => {
                let texts = self.render(&t, help);
                let plugs = self.control_plugins(&t, &texts);
                assert(is_rendered(texts, *self, t, help@) && inputs::is_inputs(t, *self));
                plugs
            },
        }
    }
}

} // verus!
